//! JSON trees and their canonical text: keys in order, no white space.
use vstd::prelude::*;

use crate::text::{chars_of, dec, signed_dec, signed_decimal};

verus! {

/// A JSON value. `Number` holds the digits as they are written.
pub enum Json {
    Null,
    Bool(bool),
    Unsigned(u64),
    Signed(i64),
    Number(String),
    Text(String),
    List(Vec<Json>),
    Object(Vec<(String, Json)>),
}

/// A JSON value with its texts as character sequences.
pub enum Tree {
    Null,
    Bool(bool),
    Whole(int),
    Number(Seq<char>),
    Text(Seq<char>),
    List(Seq<Tree>),
    Object(Seq<(Seq<char>, Tree)>),
}

/// The trees of a list.
pub open spec fn trees(items: Seq<Json>) -> Seq<Tree>
    decreases items,
{
    if items.len() == 0 {
        Seq::empty()
    } else {
        trees(items.drop_last()).push(items.last().tree())
    }
}

/// The trees of the fields of an object.
pub open spec fn field_trees(fields: Seq<(String, Json)>) -> Seq<(Seq<char>, Tree)>
    decreases fields,
{
    if fields.len() == 0 {
        Seq::empty()
    } else {
        field_trees(fields.drop_last()).push((fields.last().0@, fields.last().1.tree()))
    }
}

impl Json {
    /// The value with its texts as character sequences.
    pub open spec fn tree(self) -> Tree
        decreases self,
    {
        match self {
            Json::Null => Tree::Null,
            Json::Bool(b) => Tree::Bool(b),
            Json::Unsigned(n) => Tree::Whole(n as int),
            Json::Signed(n) => Tree::Whole(n as int),
            Json::Number(s) => Tree::Number(s@),
            Json::Text(s) => Tree::Text(s@),
            Json::List(items) => Tree::List(trees(items@)),
            Json::Object(fields) => Tree::Object(field_trees(fields@)),
        }
    }
}

/// The trees of a list are those of its items, one by one.
pub proof fn trees_at(items: Seq<Json>, i: int)
    requires
        0 <= i < items.len(),
    ensures
        trees(items).len() == items.len(),
        trees(items)[i] == items[i].tree(),
    decreases items.len(),
{
    trees_len(items);
    trees_len(items.drop_last());
    if i < items.len() - 1 {
        trees_at(items.drop_last(), i);
    }
}

proof fn trees_len(items: Seq<Json>)
    ensures
        trees(items).len() == items.len(),
    decreases items.len(),
{
    if items.len() > 0 {
        trees_len(items.drop_last());
    }
}

proof fn field_trees_len(fields: Seq<(String, Json)>)
    ensures
        field_trees(fields).len() == fields.len(),
    decreases fields.len(),
{
    if fields.len() > 0 {
        field_trees_len(fields.drop_last());
    }
}

/// The trees of the fields are those of their values, one by one.
pub proof fn field_trees_at(fields: Seq<(String, Json)>, i: int)
    requires
        0 <= i < fields.len(),
    ensures
        field_trees(fields).len() == fields.len(),
        field_trees(fields)[i] == (fields[i].0@, fields[i].1.tree()),
    decreases fields.len(),
{
    field_trees_len(fields);
    field_trees_len(fields.drop_last());
    if i < fields.len() - 1 {
        field_trees_at(fields.drop_last(), i);
    }
}

/// A hexadecimal digit in lower case.
pub open spec fn hex_char(d: int) -> char {
    if d < 10 {
        ('0' as int + d) as char
    } else {
        ('a' as int + d - 10) as char
    }
}

/// A character inside a JSON string.
pub open spec fn escaped(c: char) -> Seq<char> {
    if c == '"' {
        seq!['\\', '"']
    } else if c == '\\' {
        seq!['\\', '\\']
    } else if c as int == 8 {
        seq!['\\', 'b']
    } else if c as int == 12 {
        seq!['\\', 'f']
    } else if c == '\n' {
        seq!['\\', 'n']
    } else if c == '\r' {
        seq!['\\', 'r']
    } else if c == '\t' {
        seq!['\\', 't']
    } else if (c as int) < 32 {
        seq!['\\', 'u', '0', '0', hex_char(c as int / 16), hex_char(c as int % 16)]
    } else {
        seq![c]
    }
}

/// The characters of a text inside a JSON string.
pub open spec fn escaped_all(s: Seq<char>) -> Seq<char>
    decreases s.len(),
{
    if s.len() == 0 {
        Seq::empty()
    } else {
        escaped_all(s.drop_last()) + escaped(s.last())
    }
}

/// A text as a JSON string.
pub open spec fn json_text(s: Seq<char>) -> Seq<char> {
    seq!['"'] + escaped_all(s) + seq!['"']
}

/// `serde_json`'s rendering of a string value: in quotation marks, with quotation
/// marks, backslashes and control characters escaped and everything else as it is.
#[verifier::external_body]
fn json_string(s: &str) -> (r: String)
    ensures
        r@ == json_text(s@),
{
    serde_json::Value::String(s.to_owned()).to_string()
}

/// Whether one text stands before another in the order of their characters.
pub open spec fn before(a: Seq<char>, b: Seq<char>) -> bool
    decreases a.len(),
{
    if b.len() == 0 {
        false
    } else if a.len() == 0 {
        true
    } else {
        a[0] < b[0] || (a[0] == b[0] && before(a.skip(1), b.skip(1)))
    }
}

/// The keys of fields.
pub open spec fn keys_of(fields: Seq<(Seq<char>, Tree)>) -> Seq<Seq<char>> {
    Seq::new(fields.len(), |i: int| fields[i].0)
}

/// The first place in an order at which a later key stands, or the end.
pub open spec fn place_for(keys: Seq<Seq<char>>, order: Seq<int>, key: Seq<char>, from: int) -> int
    decreases order.len() - from,
{
    if from >= order.len() || before(key, keys[order[from]]) {
        from
    } else {
        place_for(keys, order, key, from + 1)
    }
}

/// The places of the first `n` keys, in the order of the keys.
pub open spec fn key_order(keys: Seq<Seq<char>>, n: nat) -> Seq<int>
    decreases n,
{
    if n == 0 {
        Seq::empty()
    } else {
        let order = key_order(keys, (n - 1) as nat);
        order.insert(place_for(keys, order, keys[n - 1], 0), n - 1)
    }
}

/// The canonical text of a value: the fields of an object stand in the order of their
/// keys, and there is no white space.
pub open spec fn canonical(tree: Tree) -> Seq<char>
    decreases tree, 0nat,
{
    match tree {
        Tree::Null => "null"@,
        Tree::Bool(b) => if b {
            "true"@
        } else {
            "false"@
        },
        Tree::Whole(n) => signed_decimal(n),
        Tree::Number(s) => s,
        Tree::Text(s) => json_text(s),
        Tree::List(items) => "["@ + canonical_items(items, items.len()) + "]"@,
        Tree::Object(fields) => "{"@ + canonical_fields(
            fields,
            key_order(keys_of(fields), fields.len()),
            fields.len(),
        ) + "}"@,
    }
}

/// The first `n` items of a list, with commas between them.
pub open spec fn canonical_items(items: Seq<Tree>, n: nat) -> Seq<char>
    decreases items, n,
{
    if n == 0 || n > items.len() {
        Seq::empty()
    } else {
        let rest = canonical_items(items, (n - 1) as nat);
        (if n == 1 {
            rest
        } else {
            rest + ","@
        }) + canonical(items[n - 1])
    }
}

/// The fields at the first `n` places of an order, with commas between them.
pub open spec fn canonical_fields(
    fields: Seq<(Seq<char>, Tree)>,
    order: Seq<int>,
    n: nat,
) -> Seq<char>
    decreases fields, n,
{
    if n == 0 || n > order.len() || !(0 <= order[n - 1] < fields.len()) {
        Seq::empty()
    } else {
        let rest = canonical_fields(fields, order, (n - 1) as nat);
        let field = fields[order[n - 1]];
        (if n == 1 {
            rest
        } else {
            rest + ","@
        }) + json_text(field.0) + ":"@ + canonical(field.1)
    }
}

proof fn place_for_bounds(keys: Seq<Seq<char>>, order: Seq<int>, key: Seq<char>, from: int)
    requires
        0 <= from <= order.len(),
    ensures
        from <= place_for(keys, order, key, from) <= order.len(),
    decreases order.len() - from,
{
    if from < order.len() && !before(key, keys[order[from]]) {
        place_for_bounds(keys, order, key, from + 1);
    }
}

proof fn key_order_places(keys: Seq<Seq<char>>, n: nat)
    ensures
        key_order(keys, n).len() == n,
        forall|i: int| 0 <= i < n ==> 0 <= #[trigger] key_order(keys, n)[i] < n,
    decreases n,
{
    if n > 0 {
        key_order_places(keys, (n - 1) as nat);
        place_for_bounds(keys, key_order(keys, (n - 1) as nat), keys[n - 1], 0);
    }
}

/// Whether one text stands before another.
fn stands_before(a: &Vec<char>, b: &Vec<char>) -> (r: bool)
    ensures
        r == before(a@, b@),
{
    let mut i: usize = 0;
    assert(a@.skip(0) =~= a@);
    assert(b@.skip(0) =~= b@);
    while i < a.len() && i < b.len()
        invariant
            i <= a.len(),
            i <= b.len(),
            before(a@, b@) == before(a@.skip(i as int), b@.skip(i as int)),
        decreases a.len() - i,
    {
        assert(a@.skip(i as int).skip(1) =~= a@.skip(i + 1));
        assert(b@.skip(i as int).skip(1) =~= b@.skip(i + 1));
        if a[i] < b[i] {
            return true;
        }
        if a[i] > b[i] {
            return false;
        }
        i = i + 1;
    }
    i < b.len()
}

/// The places of fields in the order of their keys.
fn order_of(fields: &Vec<(String, Json)>) -> (r: Vec<usize>)
    ensures
        r@.len() == fields@.len(),
        r@.map_values(|k: usize| k as int) == key_order(
            keys_of(field_trees(fields@)),
            fields@.len(),
        ),
{
    let ghost keys = keys_of(field_trees(fields@));
    let mut texts: Vec<Vec<char>> = Vec::new();
    let mut i: usize = 0;
    proof {
        field_trees_len(fields@);
    }
    while i < fields.len()
        invariant
            i <= fields.len(),
            texts@.len() == i,
            keys == keys_of(field_trees(fields@)),
            field_trees(fields@).len() == fields@.len(),
            forall|j: int| 0 <= j < i ==> texts@[j]@ == keys[j],
        decreases fields.len() - i,
    {
        proof {
            field_trees_at(fields@, i as int);
        }
        texts.push(chars_of(fields[i].0.as_str()));
        i = i + 1;
    }
    let mut order: Vec<usize> = Vec::new();
    let mut n: usize = 0;
    while n < fields.len()
        invariant
            n <= fields.len(),
            texts@.len() == fields@.len(),
            forall|j: int| 0 <= j < fields@.len() ==> texts@[j]@ == keys[j],
            order@.len() == n,
            order@.map_values(|k: usize| k as int) =~= key_order(keys, n as nat),
        decreases fields.len() - n,
    {
        let ghost places = key_order(keys, n as nat);
        proof {
            key_order_places(keys, n as nat);
        }
        let mut at: usize = 0;
        while at < order.len() && !stands_before(&texts[n], &texts[order[at]])
            invariant
                n < fields@.len(),
                at <= order.len(),
                order@.len() == n,
                texts@.len() == fields@.len(),
                forall|j: int| 0 <= j < fields@.len() ==> texts@[j]@ == keys[j],
                places == key_order(keys, n as nat),
                order@.map_values(|k: usize| k as int) =~= places,
                forall|j: int| 0 <= j < n ==> 0 <= #[trigger] places[j] < n,
                place_for(keys, places, keys[n as int], 0) == place_for(
                    keys,
                    places,
                    keys[n as int],
                    at as int,
                ),
            decreases order.len() - at,
        {
            assert(places[at as int] == order@[at as int]);
            at = at + 1;
        }
        proof {
            if at < order.len() {
                assert(places[at as int] == order@[at as int]);
            }
        }
        let ghost old_order = order@;
        order.insert(at, n);
        assert(order@.map_values(|k: usize| k as int) =~= old_order.map_values(
            |k: usize| k as int,
        ).insert(at as int, n as int));
        n = n + 1;
    }
    order
}

/// Appends the canonical text of a value.
pub fn write_canonical(value: &Json, out: &mut String)
    ensures
        final(out)@ == old(out)@ + canonical(value.tree()),
    decreases value,
{
    match value {
        Json::Null => {
            out.append("null");
        },
        Json::Bool(b) => {
            if *b {
                out.append("true");
            } else {
                out.append("false");
            }
        },
        Json::Unsigned(n) => {
            let digits: String = dec(*n);
            out.append(digits.as_str());
        },
        Json::Signed(n) => {
            let digits: String = signed_dec(*n);
            out.append(digits.as_str());
        },
        Json::Number(s) => {
            out.append(s.as_str());
        },
        Json::Text(s) => {
            let quoted: String = json_string(s.as_str());
            out.append(quoted.as_str());
        },
        Json::List(items) => {
            out.append("[");
            let ghost parts = trees(items@);
            let ghost start = out@;
            let mut i: usize = 0;
            proof {
                trees_len(items@);
            }
            while i < items.len()
                invariant
                    i <= items.len(),
                    *value == Json::List(*items),
                    parts == trees(items@),
                    parts.len() == items@.len(),
                    out@ =~= start + canonical_items(parts, i as nat),
                decreases items.len() - i,
            {
                if i > 0 {
                    out.append(",");
                }
                proof {
                    trees_at(items@, i as int);
                    assert(decreases_to!(value->List_0 => value->List_0@[i as int]));
                }
                write_canonical(&items[i], out);
                i = i + 1;
            }
            out.append("]");
            assert(out@ =~= old(out)@ + canonical(value.tree()));
        },
        Json::Object(fields) => {
            out.append("{");
            let order: Vec<usize> = order_of(fields);
            let ghost parts = field_trees(fields@);
            let ghost places = key_order(keys_of(parts), fields@.len());
            let ghost start = out@;
            let mut i: usize = 0;
            proof {
                field_trees_len(fields@);
                key_order_places(keys_of(parts), fields@.len());
            }
            while i < order.len()
                invariant
                    i <= order.len(),
                    *value == Json::Object(*fields),
                    parts == field_trees(fields@),
                    parts.len() == fields@.len(),
                    order@.len() == fields@.len(),
                    places.len() == fields@.len(),
                    places == order@.map_values(|k: usize| k as int),
                    forall|j: int| 0 <= j < places.len() ==> 0 <= #[trigger] places[j] < fields@.len(),
                    out@ =~= start + canonical_fields(parts, places, i as nat),
                decreases order.len() - i,
            {
                if i > 0 {
                    out.append(",");
                }
                assert(places[i as int] == order@[i as int]);
                let at: usize = order[i];
                proof {
                    field_trees_at(fields@, at as int);
                    assert(decreases_to!(value->Object_0 => value->Object_0@[at as int]));
                    assert(decreases_to!(fields@[at as int] => fields@[at as int].1));
                }
                let key: String = json_string(fields[at].0.as_str());
                out.append(key.as_str());
                out.append(":");
                write_canonical(&fields[at].1, out);
                i = i + 1;
            }
            out.append("}");
            assert(out@ =~= old(out)@ + canonical(value.tree()));
        },
    }
}

proof fn before_is_irreflexive(a: Seq<char>)
    ensures
        !before(a, a),
    decreases a.len(),
{
    if a.len() > 0 {
        before_is_irreflexive(a.skip(1));
    }
}

proof fn before_is_transitive(a: Seq<char>, b: Seq<char>, c: Seq<char>)
    requires
        before(a, b),
        before(b, c),
    ensures
        before(a, c),
    decreases a.len(),
{
    if a.len() > 0 && a[0] == b[0] && b[0] == c[0] {
        before_is_transitive(a.skip(1), b.skip(1), c.skip(1));
    }
}

proof fn before_is_total(a: Seq<char>, b: Seq<char>)
    ensures
        before(a, b) || before(b, a) || a == b,
    decreases a.len(),
{
    if a.len() > 0 && b.len() > 0 {
        if a[0] == b[0] {
            before_is_total(a.skip(1), b.skip(1));
            if a.skip(1) == b.skip(1) {
                assert(a.len() - 1 == a.skip(1).len());
                assert(b.len() - 1 == b.skip(1).len());
                assert forall|i: int| 0 <= i < a.len() implies a[i] == b[i] by {
                    if i > 0 {
                        assert(a[i] == a.skip(1)[i - 1]);
                        assert(b[i] == b.skip(1)[i - 1]);
                    }
                }
                assert(a =~= b);
            }
        }
    } else if a.len() == 0 && b.len() == 0 {
        assert(a =~= b);
    }
}

/// `a` does not stand after `b`.
pub open spec fn not_after(a: Seq<char>, b: Seq<char>) -> bool {
    !before(b, a)
}

proof fn not_after_chain(a: Seq<char>, b: Seq<char>, c: Seq<char>)
    requires
        not_after(a, b),
        not_after(b, c),
    ensures
        not_after(a, c),
{
    if before(c, a) {
        before_is_total(a, b);
        if before(a, b) {
            before_is_transitive(c, a, b);
        }
    }
}

proof fn before_is_not_after(a: Seq<char>, b: Seq<char>)
    requires
        before(a, b),
    ensures
        not_after(a, b),
{
    if before(b, a) {
        before_is_transitive(a, b, a);
        before_is_irreflexive(a);
    }
}

proof fn place_for_splits(keys: Seq<Seq<char>>, order: Seq<int>, key: Seq<char>, from: int)
    requires
        0 <= from <= order.len(),
    ensures
        ({
            let at = place_for(keys, order, key, from);
            &&& from <= at <= order.len()
            &&& forall|i: int| from <= i < at ==> not_after(keys[#[trigger] order[i]], key)
            &&& at < order.len() ==> before(key, keys[order[at]])
        }),
    decreases order.len() - from,
{
    if from < order.len() && !before(key, keys[order[from]]) {
        place_for_splits(keys, order, key, from + 1);
    }
}

/// The order of keys names each of the first `n` places once, and no key in it stands
/// after a later one.
pub proof fn key_order_sorts(keys: Seq<Seq<char>>, n: nat)
    requires
        n <= keys.len(),
    ensures
        key_order(keys, n).len() == n,
        forall|i: int| 0 <= i < n ==> 0 <= #[trigger] key_order(keys, n)[i] < n,
        forall|i: int, j: int|
            0 <= i < j < n ==> #[trigger] key_order(keys, n)[i] != #[trigger] key_order(keys, n)[j],
        forall|v: int| 0 <= v < n ==> #[trigger] key_order(keys, n).contains(v),
        forall|i: int, j: int|
            0 <= i < j < n ==> not_after(
                keys[#[trigger] key_order(keys, n)[i]],
                keys[#[trigger] key_order(keys, n)[j]],
            ),
    decreases n,
{
    if n > 0 {
        let m = (n - 1) as nat;
        key_order_sorts(keys, m);
        let order = key_order(keys, m);
        let key = keys[n - 1];
        let at = place_for(keys, order, key, 0);
        place_for_splits(keys, order, key, 0);
        let whole = key_order(keys, n);
        assert(whole =~= order.insert(at, n - 1));
        assert forall|v: int| 0 <= v < n implies #[trigger] whole.contains(v) by {
            if v == n - 1 {
                assert(whole[at] == v);
            } else {
                assert(order.contains(v));
                let i = choose|i: int| 0 <= i < order.len() && order[i] == v;
                if i < at {
                    assert(whole[i] == v);
                } else {
                    assert(whole[i + 1] == v);
                }
            }
        }
        assert forall|i: int, j: int| 0 <= i < j < n implies not_after(
            keys[#[trigger] whole[i]],
            keys[#[trigger] whole[j]],
        ) by {
            if i == at {
                assert(whole[j] == order[j - 1]);
                before_is_not_after(key, keys[order[at]]);
                if j - 1 > at {
                    assert(not_after(keys[order[at]], keys[order[j - 1]]));
                    not_after_chain(key, keys[order[at]], keys[order[j - 1]]);
                }
            } else if j == at {
                assert(whole[i] == order[i]);
            } else {
                let a = if i < at { i } else { i - 1 };
                let b = if j < at { j } else { j - 1 };
                assert(whole[i] == order[a] && whole[j] == order[b]);
            }
        }
    }
}

/// Whether `b` holds the fields of `a` in another order: field `i` of `b` is the one at
/// place `places[i]` of `a`.
pub open spec fn reordered(
    a: Seq<(Seq<char>, Tree)>,
    b: Seq<(Seq<char>, Tree)>,
    places: Seq<int>,
) -> bool {
    &&& b.len() == a.len()
    &&& places.len() == a.len()
    &&& forall|i: int| 0 <= i < a.len() ==> 0 <= #[trigger] places[i] < a.len() && b[i]
        == a[places[i]]
    &&& forall|v: int| 0 <= v < a.len() ==> #[trigger] places.contains(v)
}

/// Whether all keys are different.
pub open spec fn distinct_keys(a: Seq<(Seq<char>, Tree)>) -> bool {
    forall|i: int, j: int| 0 <= i < j < a.len() ==> (#[trigger] a[i]).0 != (#[trigger] a[j]).0
}

/// The field that stands at place `i` of the canonical text.
pub open spec fn sorted_field(a: Seq<(Seq<char>, Tree)>, i: int) -> (Seq<char>, Tree) {
    a[key_order(keys_of(a), a.len())[i]]
}

proof fn sorted_fields_agree(
    a: Seq<(Seq<char>, Tree)>,
    b: Seq<(Seq<char>, Tree)>,
    places: Seq<int>,
    i: int,
)
    requires
        reordered(a, b, places),
        distinct_keys(a),
        0 <= i < a.len(),
    ensures
        sorted_field(a, i) == sorted_field(b, i),
    decreases i,
{
    let oa = key_order(keys_of(a), a.len());
    let ob = key_order(keys_of(b), b.len());
    key_order_sorts(keys_of(a), a.len());
    key_order_sorts(keys_of(b), b.len());
    assert forall|k: int| 0 <= k < i implies sorted_field(a, k) == sorted_field(b, k) by {
        sorted_fields_agree(a, b, places, k);
    }
    // The field at place i of one order stands at or behind place i of the other.
    let va = oa[i];
    assert(places.contains(va));
    let pa = choose|p: int| 0 <= p < places.len() && places[p] == va;
    assert(b[pa] == a[va]);
    assert(ob.contains(pa));
    let ja = choose|j: int| 0 <= j < ob.len() && ob[j] == pa;
    if ja < i {
        assert(sorted_field(a, ja) == sorted_field(b, ja));
        assert(a[oa[ja]].0 == a[oa[i]].0);
        assert(oa[ja] != oa[i]);
        assert(false);
    }
    let vb = places[ob[i]];
    assert(b[ob[i]] == a[vb]);
    assert(oa.contains(vb));
    let jb = choose|j: int| 0 <= j < oa.len() && oa[j] == vb;
    if jb < i {
        assert(sorted_field(a, jb) == sorted_field(b, jb));
        assert(b[ob[jb]] == b[ob[i]]);
        let x = places[ob[jb]];
        assert(b[ob[jb]] == a[x]);
        assert(a[x].0 == a[vb].0);
        assert(x == vb);
        assert(keys_of(b)[ob[jb]] == keys_of(b)[ob[i]]);
        assert(ob[jb] != ob[i]);
        places_are_distinct(a, b, places, ob[jb], ob[i]);
        assert(false);
    }
    let ka = a[va].0;
    let kb = b[ob[i]].0;
    assert(not_after(kb, ka)) by {
        if ja > i {
            assert(not_after(keys_of(b)[ob[i]], keys_of(b)[ob[ja]]));
        } else {
            before_is_irreflexive(ka);
        }
    }
    assert(not_after(ka, kb)) by {
        if jb > i {
            assert(not_after(keys_of(a)[oa[i]], keys_of(a)[oa[jb]]));
        } else {
            before_is_irreflexive(kb);
        }
    }
    before_is_total(ka, kb);
    assert(a[va].0 == a[vb].0);
}

/// A map of `0..n` onto itself takes no value twice.
proof fn places_are_distinct(
    a: Seq<(Seq<char>, Tree)>,
    b: Seq<(Seq<char>, Tree)>,
    places: Seq<int>,
    i: int,
    j: int,
)
    requires
        reordered(a, b, places),
        0 <= i < a.len(),
        0 <= j < a.len(),
        i != j,
    ensures
        places[i] != places[j],
{
    if places[i] == places[j] {
        let n = a.len() as int;
        let all = vstd::set_lib::set_int_range(0, n);
        vstd::set_lib::lemma_int_range(0, n);
        let rest = places.remove(i);
        let seen = rest.to_set();
        assert forall|v: int| all.contains(v) implies seen.contains(v) by {
            assert(places.contains(v));
            let p = choose|p: int| 0 <= p < places.len() && places[p] == v;
            let q = if p == i { j } else { p };
            assert(places[q] == v);
            if q < i {
                assert(rest[q] == v);
            } else {
                assert(rest[q - 1] == v);
            }
        }
        rest.lemma_cardinality_of_set();
        vstd::set_lib::lemma_len_subset(all, seen);
    }
}

proof fn canonical_fields_agree(
    a: Seq<(Seq<char>, Tree)>,
    b: Seq<(Seq<char>, Tree)>,
    places: Seq<int>,
    n: nat,
)
    requires
        reordered(a, b, places),
        distinct_keys(a),
        n <= a.len(),
    ensures
        canonical_fields(a, key_order(keys_of(a), a.len()), n) == canonical_fields(
            b,
            key_order(keys_of(b), b.len()),
            n,
        ),
    decreases n,
{
    key_order_sorts(keys_of(a), a.len());
    key_order_sorts(keys_of(b), b.len());
    if n > 0 {
        canonical_fields_agree(a, b, places, (n - 1) as nat);
        sorted_fields_agree(a, b, places, n - 1);
    }
}

/// The order in which the fields of an object are given does not matter: the canonical
/// text is the same.
pub proof fn field_order_does_not_matter(
    a: Seq<(Seq<char>, Tree)>,
    b: Seq<(Seq<char>, Tree)>,
    places: Seq<int>,
)
    requires
        reordered(a, b, places),
        distinct_keys(a),
    ensures
        canonical(Tree::Object(a)) == canonical(Tree::Object(b)),
{
    canonical_fields_agree(a, b, places, a.len());
}

} // verus!
