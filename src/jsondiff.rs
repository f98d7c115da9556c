use vstd::prelude::*;
use vstd::string::StringExecFns;
use crate::json::{Json, JsonValue, items_model, members_model, lemma_items_model, lemma_members_model};
use crate::buffer::ByteBuffer;
use crate::text::{chars_of, push_char, lex_less, str_less};

verus! {

// ---------------------------------------------------------------------------
// Rendering
// ---------------------------------------------------------------------------

/// The escape of one character: only `"`, `\` and newline are escaped.
pub open spec fn escape_char(c: char) -> Seq<char> {
    if c == '"' {
        "\\\""@
    } else if c == '\\' {
        "\\\\"@
    } else if c == '\n' {
        "\\n"@
    } else {
        seq![c]
    }
}

pub open spec fn escape(s: Seq<char>) -> Seq<char>
    decreases s.len(),
{
    if s.len() == 0 {
        Seq::empty()
    } else {
        escape(s.drop_last()) + escape_char(s.last())
    }
}

/// A string literal: the escaped text between double quotes.
pub open spec fn quote(s: Seq<char>) -> Seq<char> {
    "\""@ + escape(s) + "\""@
}

/// Compact JSON text of a value, members and elements in the order held.
pub open spec fn render(j: Json) -> Seq<char>
    decreases j, 0nat,
{
    match j {
        Json::Str(s) => quote(s),
        Json::Num(t) => t,
        Json::Bool(b) => if b {
            "true"@
        } else {
            "false"@
        },
        Json::Null => "null"@,
        Json::Arr(items) => "["@ + render_items(items) + "]"@,
        Json::Obj(members) => "{"@ + render_members(members) + "}"@,
    }
}

/// The elements rendered and separated by commas.
pub open spec fn render_items(s: Seq<Json>) -> Seq<char>
    decreases s, 0nat,
{
    if s.len() == 0 {
        Seq::empty()
    } else if s.len() == 1 {
        render(s[0])
    } else {
        render_items(s.drop_last()) + ","@ + render(s.last())
    }
}

/// The members rendered as `"key":value` and separated by commas.
pub open spec fn render_members(s: Seq<(Seq<char>, Json)>) -> Seq<char>
    decreases s, 0nat,
{
    if s.len() == 0 {
        Seq::empty()
    } else if s.len() == 1 {
        quote(s[0].0) + ":"@ + render(s[0].1)
    } else {
        render_members(s.drop_last()) + ","@ + quote(s.last().0) + ":"@ + render(s.last().1)
    }
}

/// Appends the escape of `s` to `out`.
fn write_escaped(s: &str, out: &mut String)
    ensures
        final(out)@ == old(out)@ + escape(s@),
{
    let cs = chars_of(s);
    let n = cs.len();
    let mut i: usize = 0;
    while i < n
        invariant
            n == cs@.len(),
            cs@ == s@,
            i <= n,
            out@ == old(out)@ + escape(cs@.take(i as int)),
        decreases n - i,
    {
        let c = cs[i];
        if c == '"' {
            out.append("\\\"");
        } else if c == '\\' {
            out.append("\\\\");
        } else if c == '\n' {
            out.append("\\n");
        } else {
            push_char(out, c);
        }
        proof {
            assert(cs@.take(i + 1).drop_last() =~= cs@.take(i as int));
        }
        i += 1;
    }
    proof {
        assert(cs@.take(n as int) =~= cs@);
    }
}

/// The escape of a key, without surrounding quotes.
pub fn escape_key(key: &str) -> (r: String)
    ensures
        r@ == escape(key@),
{
    let mut out = String::new();
    write_escaped(key, &mut out);
    out
}

/// A string as a JSON string literal.
pub fn json_escape(s: &str) -> (r: String)
    ensures
        r@ == quote(s@),
{
    let mut out = String::new();
    out.append("\"");
    write_escaped(s, &mut out);
    out.append("\"");
    out
}

fn write_value(v: &JsonValue, out: &mut String)
    ensures
        final(out)@ == old(out)@ + render(v@),
    decreases v@,
{
    match v {
        JsonValue::String(s) => {
            out.append("\"");
            write_escaped(s.as_str(), out);
            out.append("\"");
        },
        JsonValue::Number(t) => {
            out.append(t.as_str());
        },
        JsonValue::Boolean(b) => {
            if *b {
                out.append("true");
            } else {
                out.append("false");
            }
        },
        JsonValue::Null => {
            out.append("null");
        },
        JsonValue::Array(items) => {
            let ghost m = items_model(items@);
            proof {
                lemma_items_model(items@);
            }
            out.append("[");
            let n = items.len();
            let mut i: usize = 0;
            while i < n
                invariant
                    n == items@.len(),
                    m == items_model(items@),
                    v@ == Json::Arr(m),
                    m.len() == n,
                    forall|k: int| 0 <= k < n ==> #[trigger] m[k] == crate::json::value_model(items@[k]),
                    i <= n,
                    out@ == old(out)@ + "["@ + render_items(m.take(i as int)),
                decreases n - i,
            {
                if i > 0 {
                    out.append(",");
                }
                proof {
                }
                proof {
                    assert(decreases_to!(v@ => (v@)->Arr_0));
                    assert(decreases_to!(m => m[i as int]));
                }
                write_value(&items[i], out);
                proof {
                    assert(m.take(i + 1).drop_last() =~= m.take(i as int));
                }
                i += 1;
            }
            proof {
                assert(m.take(n as int) =~= m);
            }
            out.append("]");
        },
        JsonValue::Object(members) => {
            let ghost m = members_model(members@);
            proof {
                lemma_members_model(members@);
            }
            out.append("{");
            let n = members.len();
            let mut i: usize = 0;
            while i < n
                invariant
                    n == members@.len(),
                    m == members_model(members@),
                    v@ == Json::Obj(m),
                    m.len() == n,
                    forall|k: int|
                        0 <= k < n ==> #[trigger] m[k] == (members@[k].0@, crate::json::value_model(
                            members@[k].1,
                        )),
                    i <= n,
                    out@ == old(out)@ + "{"@ + render_members(m.take(i as int)),
                decreases n - i,
            {
                if i > 0 {
                    out.append(",");
                }
                let (k, val) = &members[i];
                out.append("\"");
                write_escaped(k.as_str(), out);
                out.append("\":");
                proof {
                    reveal_strlit("\":");
                    reveal_strlit("\"");
                    reveal_strlit(":");
                    assert("\":"@ =~= "\""@ + ":"@);
                }
                proof {
                    assert(decreases_to!(v@ => (v@)->Obj_0));
                    assert(decreases_to!(m => m[i as int]));
                    assert(decreases_to!(m[i as int] => m[i as int].1));
                }
                write_value(val, out);
                proof {
                    assert(m.take(i + 1).drop_last() =~= m.take(i as int));
                }
                i += 1;
            }
            proof {
                assert(m.take(n as int) =~= m);
            }
            out.append("}");
        },
    }
}

/// Compact JSON text of a value.
pub fn json_value_to_string(v: &JsonValue) -> (r: String)
    ensures
        r@ == render(v@),
{
    let mut out = String::new();
    write_value(v, &mut out);
    out
}


// ---------------------------------------------------------------------------
// Difference
// ---------------------------------------------------------------------------

/// The fragment that reports a changed scalar.
pub open spec fn old_new(x: Seq<char>, y: Seq<char>) -> Seq<char> {
    "{\"old\":"@ + x + ",\"new\":"@ + y + "}"@
}

/// The two renderings of zero.
pub open spec fn is_zero_text(t: Seq<char>) -> bool {
    t == "0"@ || t == "-0"@
}

/// Numbers compare by value: equal canonical texts, or zero of either sign.
pub open spec fn same_number(x: Seq<char>, y: Seq<char>) -> bool {
    x == y || (is_zero_text(x) && is_zero_text(y))
}

/// Parts separated by commas.
pub open spec fn join(parts: Seq<Seq<char>>) -> Seq<char>
    decreases parts.len(),
{
    if parts.len() == 0 {
        Seq::empty()
    } else if parts.len() == 1 {
        parts[0]
    } else {
        join(parts.drop_last()) + ","@ + parts.last()
    }
}

/// The elements of `s` from position `n` on (none where `s` is not longer).
pub open spec fn tail<A>(s: Seq<A>, n: int) -> Seq<A> {
    if 0 <= n < s.len() {
        s.subrange(n, s.len() as int)
    } else {
        Seq::empty()
    }
}

/// Two values compared by their rendered text.
pub open spec fn scalar_change(a: Json, b: Json) -> Option<Seq<char>> {
    if render(a) == render(b) {
        None
    } else {
        Some(old_new(render(a), render(b)))
    }
}

/// The difference between two values: `None` where there is none.
pub open spec fn diff(a: Json, b: Json, force: bool, flat: bool) -> Option<Seq<char>>
    decreases a, 0nat, 0nat,
{
    match (a, b) {
        (Json::Str(x), Json::Str(y)) => if x == y {
            None
        } else {
            Some(old_new(render(a), render(b)))
        },
        (Json::Num(x), Json::Num(y)) => if same_number(x, y) {
            None
        } else {
            Some(old_new(x, y))
        },
        (Json::Bool(x), Json::Bool(y)) => if x == y {
            None
        } else {
            Some(old_new(render(a), render(b)))
        },
        (Json::Null, Json::Null) => None,
        (Json::Arr(xs), Json::Arr(ys)) => array_diff(xs, ys, force),
        (Json::Obj(xs), Json::Obj(ys)) => object_diff(xs, ys, flat),
        _ => scalar_change(a, b),
    }
}

/// How the elements at one position of two arrays differ.
pub open spec fn element_change(x: Json, y: Json) -> Option<Seq<char>>
    decreases x, 1nat, 0nat,
{
    match (x, y) {
        (Json::Obj(_), Json::Obj(_)) => diff(x, y, false, true),
        _ => scalar_change(x, y),
    }
}

/// The changes at the first `n` common positions, in index order.
pub open spec fn array_mods(xs: Seq<Json>, ys: Seq<Json>, n: nat) -> Seq<Seq<char>>
    decreases xs, 2nat, n,
{
    if n == 0 || n > xs.len() || n > ys.len() {
        Seq::empty()
    } else {
        let prev = array_mods(xs, ys, (n - 1) as nat);
        match element_change(xs[n - 1], ys[n - 1]) {
            Some(e) => prev.push(e),
            None => prev,
        }
    }
}

pub open spec fn min_len(a: int, b: int) -> nat {
    if a < b {
        a as nat
    } else {
        b as nat
    }
}

pub open spec fn array_diff(xs: Seq<Json>, ys: Seq<Json>, force: bool) -> Option<Seq<char>>
    decreases xs, 3nat, 0nat,
{
    let mods = array_mods(xs, ys, min_len(xs.len() as int, ys.len() as int));
    if xs.len() == ys.len() && mods.len() == 0 && !force {
        None
    } else {
        Some(
            "{\"added\":["@ + render_items(tail(ys, xs.len() as int)) + "],\"removed\":["@
                + render_items(tail(xs, ys.len() as int)) + "]"@ + (if mods.len() == 0 {
                Seq::empty()
            } else {
                ",\"modified\":["@ + join(mods) + "]"@
            }) + "}"@,
        )
    }
}

/// Index of the first member with key `k` at or after `p`, or -1.
pub open spec fn find_key_from(s: Seq<(Seq<char>, Json)>, k: Seq<char>, p: int) -> int
    decreases s.len() - p,
{
    if p < 0 || p >= s.len() {
        -1
    } else if s[p].0 == k {
        p
    } else {
        find_key_from(s, k, p + 1)
    }
}

pub open spec fn find_key(s: Seq<(Seq<char>, Json)>, k: Seq<char>) -> int {
    find_key_from(s, k, 0)
}

/// Where `k` goes in the sorted sequence `ks`: after every key less than it.
pub open spec fn insert_pos(ks: Seq<Seq<char>>, k: Seq<char>, p: int) -> int
    decreases ks.len() - p,
{
    if 0 <= p < ks.len() && lex_less(ks[p], k) {
        insert_pos(ks, k, p + 1)
    } else {
        p
    }
}

/// `ks` with `k` added in order, unless it is there already.
pub open spec fn insert_key(ks: Seq<Seq<char>>, k: Seq<char>) -> Seq<Seq<char>> {
    let p = insert_pos(ks, k, 0);
    if 0 <= p < ks.len() && ks[p] == k {
        ks
    } else if 0 <= p <= ks.len() {
        ks.insert(p, k)
    } else {
        ks
    }
}

/// The keys of `ks`, sorted, each once.
pub open spec fn sort_keys(ks: Seq<Seq<char>>) -> Seq<Seq<char>>
    decreases ks.len(),
{
    if ks.len() == 0 {
        Seq::empty()
    } else {
        insert_key(sort_keys(ks.drop_last()), ks.last())
    }
}

pub open spec fn member_keys(s: Seq<(Seq<char>, Json)>) -> Seq<Seq<char>> {
    s.map_values(|m: (Seq<char>, Json)| m.0)
}

/// The keys of both objects, sorted, each once.
pub open spec fn key_order(xs: Seq<(Seq<char>, Json)>, ys: Seq<(Seq<char>, Json)>) -> Seq<Seq<char>> {
    sort_keys(member_keys(xs) + member_keys(ys))
}

/// Each key of `ks` comes before the next in lexicographic order.
pub open spec fn strictly_sorted(ks: Seq<Seq<char>>) -> bool {
    forall|i: int, j: int| 0 <= i < j < ks.len() ==> lex_less(#[trigger] ks[i], #[trigger] ks[j])
}

proof fn lemma_lex_irreflexive(a: Seq<char>)
    ensures
        !lex_less(a, a),
    decreases a.len(),
{
    if a.len() > 0 {
        lemma_lex_irreflexive(a.drop_first());
    }
}

proof fn lemma_lex_transitive(a: Seq<char>, b: Seq<char>, c: Seq<char>)
    requires
        lex_less(a, b),
        lex_less(b, c),
    ensures
        lex_less(a, c),
    decreases a.len(),
{
    if a.len() > 0 && b.len() > 0 && c.len() > 0 && a[0] == b[0] && b[0] == c[0] {
        lemma_lex_transitive(a.drop_first(), b.drop_first(), c.drop_first());
    }
}

proof fn lemma_lex_total(a: Seq<char>, b: Seq<char>)
    requires
        a != b,
    ensures
        lex_less(a, b) || lex_less(b, a),
    decreases a.len(),
{
    if a.len() > 0 && b.len() > 0 {
        if a[0] == b[0] {
            if a.drop_first() == b.drop_first() {
                assert(a =~= seq![a[0]] + a.drop_first());
                assert(b =~= seq![b[0]] + b.drop_first());
            }
            lemma_lex_total(a.drop_first(), b.drop_first());
        } else {
            if (a[0] as u32) == (b[0] as u32) {
                vstd::utf8::char_u32_cast(a[0], a[0] as u32);
                vstd::utf8::char_u32_cast(b[0], a[0] as u32);
            }
        }
    } else if a.len() == 0 && b.len() == 0 {
        assert(a =~= b);
    }
}

proof fn lemma_insert_pos(ks: Seq<Seq<char>>, k: Seq<char>, p: int)
    requires
        0 <= p <= ks.len(),
        forall|j: int| 0 <= j < p ==> lex_less(#[trigger] ks[j], k),
    ensures
        p <= insert_pos(ks, k, p) <= ks.len(),
        forall|j: int| 0 <= j < insert_pos(ks, k, p) ==> lex_less(#[trigger] ks[j], k),
        insert_pos(ks, k, p) < ks.len() ==> !lex_less(ks[insert_pos(ks, k, p)], k),
    decreases ks.len() - p,
{
    if p < ks.len() && lex_less(ks[p], k) {
        lemma_insert_pos(ks, k, p + 1);
    }
}

proof fn lemma_insert_key(ks: Seq<Seq<char>>, k: Seq<char>)
    requires
        strictly_sorted(ks),
    ensures
        strictly_sorted(insert_key(ks, k)),
        forall|x: Seq<char>| #[trigger] insert_key(ks, k).contains(x) <==> ks.contains(x) || x == k,
{
    lemma_insert_pos(ks, k, 0);
    let p = insert_pos(ks, k, 0);
    if p < ks.len() && ks[p] == k {
    } else {
        let r = ks.insert(p, k);
        if p < ks.len() {
            lemma_lex_total(ks[p], k);
        }
        assert forall|i: int, j: int| 0 <= i < j < r.len() implies lex_less(#[trigger] r[i], #[trigger] r[j]) by {
            if j < p {
            } else if j == p {
            } else if i < p {
                assert(r[i] == ks[i] && r[j] == ks[j - 1]);
            } else if i == p {
                if j - 1 > p {
                    lemma_lex_transitive(k, ks[p], ks[j - 1]);
                }
            } else {
            }
        }
        assert forall|x: Seq<char>| #[trigger] r.contains(x) <==> ks.contains(x) || x == k by {
            if ks.contains(x) {
                let i = choose|i: int| 0 <= i < ks.len() && ks[i] == x;
                if i < p {
                    assert(r[i] == x);
                } else {
                    assert(r[i + 1] == x);
                }
            }
            if x == k {
                assert(r[p] == k);
            }
        }
    }
}

proof fn lemma_sort_keys(ks: Seq<Seq<char>>)
    ensures
        strictly_sorted(sort_keys(ks)),
        forall|x: Seq<char>| #[trigger] sort_keys(ks).contains(x) <==> ks.contains(x),
    decreases ks.len(),
{
    if ks.len() > 0 {
        let init = ks.drop_last();
        lemma_sort_keys(init);
        lemma_insert_key(sort_keys(init), ks.last());
        assert forall|x: Seq<char>| #[trigger] sort_keys(ks).contains(x) <==> ks.contains(x) by {
            if init.contains(x) {
                let i = choose|i: int| 0 <= i < init.len() && init[i] == x;
                assert(ks[i] == x);
            }
            if ks.contains(x) && x != ks.last() {
                let i = choose|i: int| 0 <= i < ks.len() && ks[i] == x;
                assert(init[i] == x);
            }
            if x == ks.last() {
                assert(ks[ks.len() - 1] == x);
            }
        }
    }
}

/// The keys that an object difference walks through are sorted, each once,
/// and are exactly the keys of the two objects.
pub proof fn lemma_key_order(xs: Seq<(Seq<char>, Json)>, ys: Seq<(Seq<char>, Json)>)
    ensures
        strictly_sorted(key_order(xs, ys)),
        forall|k: Seq<char>| #[trigger]
            key_order(xs, ys).contains(k) <==> (exists|i: int| 0 <= i < xs.len() && xs[i].0 == k) || (
            exists|j: int| 0 <= j < ys.len() && ys[j].0 == k),
{
    let all = member_keys(xs) + member_keys(ys);
    lemma_sort_keys(all);
    assert forall|k: Seq<char>| #[trigger] key_order(xs, ys).contains(k) <==> (exists|i: int|
        0 <= i < xs.len() && xs[i].0 == k) || (exists|j: int| 0 <= j < ys.len() && ys[j].0 == k) by {
        if all.contains(k) {
            let q = choose|q: int| 0 <= q < all.len() && all[q] == k;
            if q < xs.len() {
                assert(xs[q].0 == k);
            } else {
                assert(ys[q - xs.len()].0 == k);
            }
        }
        if exists|i: int| 0 <= i < xs.len() && xs[i].0 == k {
            let i = choose|i: int| 0 <= i < xs.len() && xs[i].0 == k;
            assert(all[i] == k);
        }
        if exists|j: int| 0 <= j < ys.len() && ys[j].0 == k {
            let j = choose|j: int| 0 <= j < ys.len() && ys[j].0 == k;
            assert(all[xs.len() + j] == k);
        }
    }
}

/// A member as object text: `"key":text`.
pub open spec fn entry(k: Seq<char>, t: Seq<char>) -> Seq<char> {
    quote(k) + ":"@ + t
}

/// The members, among the first `n` keys, that only `ys` holds.
pub open spec fn only_in(
    xs: Seq<(Seq<char>, Json)>,
    ys: Seq<(Seq<char>, Json)>,
    keys: Seq<Seq<char>>,
    n: nat,
) -> Seq<Seq<char>>
    decreases n,
{
    if n == 0 || n > keys.len() {
        Seq::empty()
    } else {
        let prev = only_in(xs, ys, keys, (n - 1) as nat);
        let k = keys[n - 1];
        let j = find_key(ys, k);
        if find_key(xs, k) < 0 && 0 <= j < ys.len() {
            prev.push(entry(k, render(ys[j].1)))
        } else {
            prev
        }
    }
}

/// How the values under `k` differ, where both objects hold `k`.
pub open spec fn member_change(xs: Seq<(Seq<char>, Json)>, ys: Seq<(Seq<char>, Json)>, k: Seq<char>) -> Option<
    Seq<char>,
>
    decreases xs, 1nat, 0nat,
{
    let i = find_key(xs, k);
    let j = find_key(ys, k);
    if 0 <= i < xs.len() && 0 <= j < ys.len() {
        diff(xs[i].1, ys[j].1, false, false)
    } else {
        None
    }
}

/// The changed members among the first `n` keys.
pub open spec fn changed_members(
    xs: Seq<(Seq<char>, Json)>,
    ys: Seq<(Seq<char>, Json)>,
    keys: Seq<Seq<char>>,
    n: nat,
) -> Seq<Seq<char>>
    decreases xs, 2nat, n,
{
    if n == 0 || n > keys.len() {
        Seq::empty()
    } else {
        let prev = changed_members(xs, ys, keys, (n - 1) as nat);
        match member_change(xs, ys, keys[n - 1]) {
            Some(d) => prev.push(entry(keys[n - 1], d)),
            None => prev,
        }
    }
}

/// The sections of an object difference, each present only where not empty.
pub open spec fn object_text(
    added: Seq<Seq<char>>,
    removed: Seq<Seq<char>>,
    modified: Seq<Seq<char>>,
    flat: bool,
) -> Seq<char> {
    "{"@ + (if added.len() > 0 {
        "\"added\":{"@ + join(added) + "}"@
    } else {
        Seq::empty()
    }) + (if removed.len() > 0 {
        (if added.len() > 0 {
            ","@
        } else {
            Seq::empty()
        }) + "\"removed\":{"@ + join(removed) + "}"@
    } else {
        Seq::empty()
    }) + (if modified.len() > 0 {
        (if added.len() > 0 || removed.len() > 0 {
            ","@
        } else {
            Seq::empty()
        }) + (if flat {
            join(modified)
        } else {
            "\"modified\":{"@ + join(modified) + "}"@
        })
    } else {
        Seq::empty()
    }) + "}"@
}

pub open spec fn object_diff(xs: Seq<(Seq<char>, Json)>, ys: Seq<(Seq<char>, Json)>, flat: bool) -> Option<
    Seq<char>,
>
    decreases xs, 3nat, 0nat,
{
    let keys = key_order(xs, ys);
    let added = only_in(xs, ys, keys, keys.len());
    let removed = only_in(ys, xs, keys, keys.len());
    let modified = changed_members(xs, ys, keys, keys.len());
    if added.len() == 0 && removed.len() == 0 && modified.len() == 0 {
        None
    } else {
        Some(object_text(added, removed, modified, flat))
    }
}


/// A value compared with itself shows no difference, in either object mode,
/// when empty array sections are not forced.
pub proof fn lemma_diff_self(v: Json, flat: bool)
    ensures
        diff(v, v, false, flat) == None::<Seq<char>>,
    decreases v, 0nat, 0nat,
{
    match v {
        Json::Arr(xs) => {
            lemma_array_mods_self(xs, min_len(xs.len() as int, xs.len() as int));
        },
        Json::Obj(xs) => {
            let keys = key_order(xs, xs);
            lemma_only_in_self(xs, keys, keys.len());
            lemma_changed_members_self(xs, keys, keys.len());
        },
        _ => {},
    }
}

proof fn lemma_array_mods_self(xs: Seq<Json>, n: nat)
    ensures
        array_mods(xs, xs, n) == Seq::<Seq<char>>::empty(),
    decreases xs, 2nat, n,
{
    if n == 0 || n > xs.len() {
    } else {
        lemma_array_mods_self(xs, (n - 1) as nat);
        let x = xs[n - 1];
        if x is Obj {
            lemma_diff_self(x, true);
        }
        assert(element_change(x, x) == None::<Seq<char>>);
    }
}

proof fn lemma_only_in_self(xs: Seq<(Seq<char>, Json)>, keys: Seq<Seq<char>>, n: nat)
    ensures
        only_in(xs, xs, keys, n) == Seq::<Seq<char>>::empty(),
    decreases n,
{
    if n > 0 && n <= keys.len() {
        lemma_only_in_self(xs, keys, (n - 1) as nat);
    }
}

proof fn lemma_changed_members_self(xs: Seq<(Seq<char>, Json)>, keys: Seq<Seq<char>>, n: nat)
    ensures
        changed_members(xs, xs, keys, n) == Seq::<Seq<char>>::empty(),
    decreases xs, 2nat, n,
{
    if n > 0 && n <= keys.len() {
        lemma_changed_members_self(xs, keys, (n - 1) as nat);
        let i = find_key(xs, keys[n - 1]);
        if 0 <= i < xs.len() {
            lemma_diff_self(xs[i].1, false);
        }
        assert(member_change(xs, xs, keys[n - 1]) == None::<Seq<char>>);
    }
}

pub open spec fn opt_model(r: Option<String>) -> Option<Seq<char>> {
    match r {
        Some(t) => Some(t@),
        None => None,
    }
}

pub open spec fn strings_model(v: Seq<String>) -> Seq<Seq<char>> {
    v.map_values(|s: String| s@)
}

fn old_new_text(x: &str, y: &str) -> (r: String)
    ensures
        r@ == old_new(x@, y@),
{
    let mut out = String::new();
    out.append("{\"old\":");
    out.append(x);
    out.append(",\"new\":");
    out.append(y);
    out.append("}");
    proof {
        assert(out@ =~= old_new(x@, y@));
    }
    out
}

fn is_zero_number(t: &String) -> (r: bool)
    ensures
        r == is_zero_text(t@),
{
    let zero = String::from_str("0");
    let negative_zero = String::from_str("-0");
    *t == zero || *t == negative_zero
}

fn scalar_change_text(a: &JsonValue, b: &JsonValue) -> (r: Option<String>)
    ensures
        opt_model(r) == scalar_change(a@, b@),
{
    let ra = json_value_to_string(a);
    let rb = json_value_to_string(b);
    if ra == rb {
        None
    } else {
        Some(old_new_text(ra.as_str(), rb.as_str()))
    }
}

/// Appends the elements of `items` from position `from` on, rendered and
/// separated by commas.
fn write_tail(items: &Vec<JsonValue>, from: usize, out: &mut String)
    ensures
        final(out)@ == old(out)@ + render_items(tail(items_model(items@), from as int)),
{
    let ghost m = items_model(items@);
    proof {
        lemma_items_model(items@);
    }
    let n = items.len();
    if from >= n {
        proof {
            assert(out@ =~= old(out)@ + render_items(tail(m, from as int)));
        }
        return ;
    }
    let mut k: usize = from;
    while k < n
        invariant
            n == items@.len(),
            m == items_model(items@),
            m.len() == n,
            forall|q: int| 0 <= q < n ==> #[trigger] m[q] == crate::json::value_model(items@[q]),
            from <= k <= n,
            out@ == old(out)@ + render_items(m.subrange(from as int, k as int)),
        decreases n - k,
    {
        if k > from {
            out.append(",");
        }
        write_value(&items[k], out);
        proof {
            assert(m.subrange(from as int, k + 1).drop_last() =~= m.subrange(from as int, k as int));
            if k == from {
                assert(out@ =~= old(out)@ + render_items(m.subrange(from as int, k + 1)));
            }
        }
        k += 1;
    }
}

/// A member as object text, with the value's text given.
fn entry_text(k: &String, t: &str) -> (r: String)
    ensures
        r@ == entry(k@, t@),
{
    let mut out = String::new();
    out.append("\"");
    write_escaped(k.as_str(), &mut out);
    out.append("\":");
    out.append(t);
    proof {
        reveal_strlit("\":");
        reveal_strlit("\"");
        reveal_strlit(":");
        assert("\":"@ =~= "\""@ + ":"@);
        assert(out@ =~= entry(k@, t@));
    }
    out
}

/// Appends `part` to a comma-separated list that holds `count` parts.
fn push_part(list: &mut String, count: &mut usize, part: &str, parts: Ghost<Seq<Seq<char>>>)
    requires
        old(list)@ == join(parts@),
        *old(count) == parts@.len(),
        *old(count) < usize::MAX,
    ensures
        final(list)@ == join(parts@.push(part@)),
        *final(count) == *old(count) + 1,
{
    if *count > 0 {
        list.append(",");
    }
    list.append(part);
    *count = *count + 1;
    proof {
        assert(parts@.push(part@).drop_last() =~= parts@);
        if parts@.len() == 0 {
            assert(list@ =~= join(parts@.push(part@)));
        }
    }
}

/// The index of the first member of `s` with key `k`.
pub(crate) fn find_member(s: &Vec<(String, JsonValue)>, k: &String) -> (r: Option<usize>)
    ensures
        match r {
            Some(i) => i < s@.len() && i == find_key(members_model(s@), k@),
            None => find_key(members_model(s@), k@) == -1,
        },
{
    let ghost m = members_model(s@);
    proof {
        lemma_members_model(s@);
    }
    let mut p: usize = 0;
    while p < s.len()
        invariant
            m == members_model(s@),
            m.len() == s@.len(),
            forall|q: int| 0 <= q < s@.len() ==> #[trigger] m[q] == (s@[q].0@, crate::json::value_model(s@[q].1)),
            p <= s@.len(),
            find_key_from(m, k@, p as int) == find_key(m, k@),
        decreases s@.len() - p,
    {
        if s[p].0 == *k {
            return Some(p);
        }
        p += 1;
    }
    None
}

/// Adds `k` to the sorted key list, in order, unless it is there already.
fn insert_sorted(keys: &mut Vec<String>, k: String)
    ensures
        strings_model(final(keys)@) == insert_key(strings_model(old(keys)@), k@),
{
    let ghost km = strings_model(keys@);
    let n = keys.len();
    let mut p: usize = 0;
    while p < n && str_less(keys[p].as_str(), k.as_str())
        invariant
            n == keys@.len(),
            km == strings_model(keys@),
            keys@ == old(keys)@,
            p <= n,
            insert_pos(km, k@, p as int) == insert_pos(km, k@, 0),
        decreases n - p,
    {
        p += 1;
    }
    if p < n && keys[p] == k {
        return ;
    }
    keys.insert(p, k);
    proof {
        assert(strings_model(keys@) =~= km.insert(p as int, k@));
    }
}

/// The keys of both objects, sorted, each once.
fn ordered_keys(xs: &Vec<(String, JsonValue)>, ys: &Vec<(String, JsonValue)>) -> (r: Vec<String>)
    ensures
        strings_model(r@) == key_order(members_model(xs@), members_model(ys@)),
{
    let ghost all = member_keys(members_model(xs@)) + member_keys(members_model(ys@));
    proof {
        lemma_members_model(xs@);
        lemma_members_model(ys@);
    }
    let mut keys: Vec<String> = Vec::new();
    let mut i: usize = 0;
    while i < xs.len()
        invariant
            all == member_keys(members_model(xs@)) + member_keys(members_model(ys@)),
            all.len() == xs@.len() + ys@.len(),
            forall|q: int| 0 <= q < xs@.len() ==> #[trigger] all[q] == xs@[q].0@,
            i <= xs@.len(),
            strings_model(keys@) == sort_keys(all.take(i as int)),
        decreases xs@.len() - i,
    {
        insert_sorted(&mut keys, xs[i].0.clone());
        proof {
            assert(all.take(i + 1).drop_last() =~= all.take(i as int));
        }
        i += 1;
    }
    let mut j: usize = 0;
    while j < ys.len()
        invariant
            all == member_keys(members_model(xs@)) + member_keys(members_model(ys@)),
            all.len() == xs@.len() + ys@.len(),
            forall|q: int| 0 <= q < ys@.len() ==> #[trigger] all[xs@.len() + q] == ys@[q].0@,
            j <= ys@.len(),
            strings_model(keys@) == sort_keys(all.take(xs@.len() + j as int)),
        decreases ys@.len() - j,
    {
        insert_sorted(&mut keys, ys[j].0.clone());
        proof {
            assert(all.take(xs@.len() + j + 1).drop_last() =~= all.take(xs@.len() + j as int));
        }
        j += 1;
    }
    proof {
        assert(all.take((xs@.len() + ys@.len()) as int) =~= all);
    }
    keys
}


/// The difference between two values as text, `None` where there is none.
pub(crate) fn diff_text(a: &JsonValue, b: &JsonValue, force: bool, flat: bool) -> (r: Option<String>)
    ensures
        opt_model(r) == diff(a@, b@, force, flat),
    decreases a@, 2nat,
{
    match (a, b) {
        (JsonValue::String(x), JsonValue::String(y)) => {
            if *x == *y {
                None
            } else {
                let rx = json_escape(x.as_str());
                let ry = json_escape(y.as_str());
                Some(old_new_text(rx.as_str(), ry.as_str()))
            }
        },
        (JsonValue::Number(x), JsonValue::Number(y)) => {
            if *x == *y || (is_zero_number(x) && is_zero_number(y)) {
                None
            } else {
                Some(old_new_text(x.as_str(), y.as_str()))
            }
        },
        (JsonValue::Boolean(x), JsonValue::Boolean(y)) => {
            if *x == *y {
                None
            } else {
                let rx = json_value_to_string(a);
                let ry = json_value_to_string(b);
                Some(old_new_text(rx.as_str(), ry.as_str()))
            }
        },
        (JsonValue::Null, JsonValue::Null) => None,
        (JsonValue::Array(xs), JsonValue::Array(ys)) => {
            proof {
                assert(decreases_to!(a@ => (a@)->Arr_0));
            }
            array_diff_text(xs, ys, force)
        },
        (JsonValue::Object(xs), JsonValue::Object(ys)) => {
            proof {
                assert(decreases_to!(a@ => (a@)->Obj_0));
            }
            object_diff_text(xs, ys, flat)
        },
        _ => scalar_change_text(a, b),
    }
}

fn array_diff_text(xs: &Vec<JsonValue>, ys: &Vec<JsonValue>, force: bool) -> (r: Option<String>)
    ensures
        opt_model(r) == array_diff(items_model(xs@), items_model(ys@), force),
    decreases items_model(xs@), 0nat,
{
    let ghost xm = items_model(xs@);
    let ghost ym = items_model(ys@);
    proof {
        lemma_items_model(xs@);
        lemma_items_model(ys@);
    }
    let n = if xs.len() < ys.len() {
        xs.len()
    } else {
        ys.len()
    };
    let mut mods = String::new();
    let mut count: usize = 0;
    let mut i: usize = 0;
    while i < n
        invariant
            xm == items_model(xs@),
            ym == items_model(ys@),
            xm.len() == xs@.len(),
            ym.len() == ys@.len(),
            forall|q: int| 0 <= q < xs@.len() ==> #[trigger] xm[q] == crate::json::value_model(xs@[q]),
            forall|q: int| 0 <= q < ys@.len() ==> #[trigger] ym[q] == crate::json::value_model(ys@[q]),
            n == min_len(xs@.len() as int, ys@.len() as int),
            i <= n,
            count <= i,
            mods@ == join(array_mods(xm, ym, i as nat)),
            count == array_mods(xm, ym, i as nat).len(),
        decreases n - i,
    {
        let x = &xs[i];
        let y = &ys[i];
        let change = match (x, y) {
            (JsonValue::Object(_), JsonValue::Object(_)) => {
                proof {
                    assert(decreases_to!(xm => xm[i as int]));
                }
                diff_text(x, y, false, true)
            },
            _ => scalar_change_text(x, y),
        };
        let ghost prev = array_mods(xm, ym, i as nat);
        assert(xm[i as int] == x@ && ym[i as int] == y@);
        assert(opt_model(change) == element_change(xm[i as int], ym[i as int]));
        assert(array_mods(xm, ym, (i + 1) as nat) == match element_change(xm[i as int], ym[i as int]) {
            Some(e) => prev.push(e),
            None => prev,
        });
        match change {
            Some(e) => {
                push_part(&mut mods, &mut count, e.as_str(), Ghost(prev));
            },
            None => {},
        }
        i += 1;
    }
    if xs.len() == ys.len() && count == 0 && !force {
        return None;
    }
    let mut out = String::new();
    out.append("{\"added\":[");
    write_tail(ys, xs.len(), &mut out);
    out.append("],\"removed\":[");
    write_tail(xs, ys.len(), &mut out);
    out.append("]");
    if count > 0 {
        out.append(",\"modified\":[");
        out.append(mods.as_str());
        out.append("]");
    }
    out.append("}");
    proof {
        assert(out@ =~= array_diff(xm, ym, force)->0);
    }
    Some(out)
}

/// The members, in key order, that only `ys` holds, as a comma-separated list
/// and its length.
fn only_in_text(xs: &Vec<(String, JsonValue)>, ys: &Vec<(String, JsonValue)>, keys: &Vec<String>) -> (r: (
    String,
    usize,
))
    ensures
        r.0@ == join(only_in(members_model(xs@), members_model(ys@), strings_model(keys@), keys@.len())),
        r.1 == only_in(members_model(xs@), members_model(ys@), strings_model(keys@), keys@.len()).len(),
{
    let ghost xm = members_model(xs@);
    let ghost ym = members_model(ys@);
    let ghost km = strings_model(keys@);
    proof {
        lemma_members_model(ys@);
    }
    let mut list = String::new();
    let mut count: usize = 0;
    let mut t: usize = 0;
    while t < keys.len()
        invariant
            xm == members_model(xs@),
            ym == members_model(ys@),
            ym.len() == ys@.len(),
            forall|q: int| 0 <= q < ys@.len() ==> #[trigger] ym[q] == (ys@[q].0@, crate::json::value_model(ys@[q].1)),
            km == strings_model(keys@),
            t <= keys@.len(),
            count <= t,
            list@ == join(only_in(xm, ym, km, t as nat)),
            count == only_in(xm, ym, km, t as nat).len(),
        decreases keys@.len() - t,
    {
        let k = &keys[t];
        let ghost prev = only_in(xm, ym, km, t as nat);
        assert(km[t as int] == k@);
        match (find_member(xs, k), find_member(ys, k)) {
            (None, Some(j)) => {
                let rv = json_value_to_string(&ys[j].1);
                let e = entry_text(k, rv.as_str());
                push_part(&mut list, &mut count, e.as_str(), Ghost(prev));
            },
            _ => {},
        }
        t += 1;
    }
    (list, count)
}

/// The changed members, in key order, as a comma-separated list and its length.
fn changed_members_text(xs: &Vec<(String, JsonValue)>, ys: &Vec<(String, JsonValue)>, keys: &Vec<String>) -> (r: (
    String,
    usize,
))
    ensures
        r.0@ == join(changed_members(members_model(xs@), members_model(ys@), strings_model(keys@), keys@.len())),
        r.1 == changed_members(members_model(xs@), members_model(ys@), strings_model(keys@), keys@.len()).len(),
    decreases members_model(xs@), 0nat,
{
    let ghost xm = members_model(xs@);
    let ghost ym = members_model(ys@);
    let ghost km = strings_model(keys@);
    proof {
        lemma_members_model(xs@);
        lemma_members_model(ys@);
    }
    let mut list = String::new();
    let mut count: usize = 0;
    let mut t: usize = 0;
    while t < keys.len()
        invariant
            xm == members_model(xs@),
            ym == members_model(ys@),
            xm.len() == xs@.len(),
            ym.len() == ys@.len(),
            forall|q: int| 0 <= q < xs@.len() ==> #[trigger] xm[q] == (xs@[q].0@, crate::json::value_model(xs@[q].1)),
            forall|q: int| 0 <= q < ys@.len() ==> #[trigger] ym[q] == (ys@[q].0@, crate::json::value_model(ys@[q].1)),
            km == strings_model(keys@),
            t <= keys@.len(),
            count <= t,
            list@ == join(changed_members(xm, ym, km, t as nat)),
            count == changed_members(xm, ym, km, t as nat).len(),
        decreases keys@.len() - t,
    {
        let k = &keys[t];
        let ghost prev = changed_members(xm, ym, km, t as nat);
        assert(km[t as int] == k@);
        assert(changed_members(xm, ym, km, (t + 1) as nat) == match member_change(xm, ym, k@) {
            Some(d) => prev.push(entry(k@, d)),
            None => prev,
        });
        match (find_member(xs, k), find_member(ys, k)) {
            (Some(i), Some(j)) => {
                assert(member_change(xm, ym, k@) == diff(xs@[i as int].1@, ys@[j as int].1@, false, false));
                proof {
                    assert(decreases_to!(xm => xm[i as int]));
                    assert(decreases_to!(xm[i as int] => xm[i as int].1));
                }
                match diff_text(&xs[i].1, &ys[j].1, false, false) {
                    Some(d) => {
                        let e = entry_text(k, d.as_str());
                        push_part(&mut list, &mut count, e.as_str(), Ghost(prev));
                    },
                    None => {},
                }
            },
            _ => {},
        }
        t += 1;
    }
    (list, count)
}


/// Puts the sections of an object difference together.
fn object_text_exec(
    added: &String,
    n_added: usize,
    removed: &String,
    n_removed: usize,
    modified: &String,
    n_modified: usize,
    flat: bool,
    a: Ghost<Seq<Seq<char>>>,
    rm: Ghost<Seq<Seq<char>>>,
    md: Ghost<Seq<Seq<char>>>,
) -> (r: String)
    requires
        added@ == join(a@),
        n_added == a@.len(),
        removed@ == join(rm@),
        n_removed == rm@.len(),
        modified@ == join(md@),
        n_modified == md@.len(),
    ensures
        r@ == object_text(a@, rm@, md@, flat),
{
    let mut out = String::new();
    out.append("{");
    let ghost s0 = out@;
    if n_added > 0 {
        out.append("\"added\":{");
        out.append(added.as_str());
        out.append("}");
    }
    let ghost s1 = out@;
    assert(s1 =~= "{"@ + (if a@.len() > 0 { "\"added\":{"@ + join(a@) + "}"@ } else { Seq::empty() }));
    if n_removed > 0 {
        if n_added > 0 {
            out.append(",");
        }
        out.append("\"removed\":{");
        out.append(removed.as_str());
        out.append("}");
    }
    let ghost s2 = out@;
    assert(s2 =~= s1 + (if rm@.len() > 0 {
        (if a@.len() > 0 { ","@ } else { Seq::empty() }) + "\"removed\":{"@ + join(rm@) + "}"@
    } else {
        Seq::empty()
    }));
    if n_modified > 0 {
        if n_added > 0 || n_removed > 0 {
            out.append(",");
        }
        if flat {
            out.append(modified.as_str());
        } else {
            out.append("\"modified\":{");
            out.append(modified.as_str());
            out.append("}");
        }
    }
    let ghost s3 = out@;
    assert(s3 =~= s2 + (if md@.len() > 0 {
        (if a@.len() > 0 || rm@.len() > 0 { ","@ } else { Seq::empty() }) + (if flat {
            join(md@)
        } else {
            "\"modified\":{"@ + join(md@) + "}"@
        })
    } else {
        Seq::empty()
    }));
    out.append("}");
    assert(out@ =~= object_text(a@, rm@, md@, flat));
    out
}


fn object_diff_text(xs: &Vec<(String, JsonValue)>, ys: &Vec<(String, JsonValue)>, flat: bool) -> (r: Option<
    String,
>)
    ensures
        opt_model(r) == object_diff(members_model(xs@), members_model(ys@), flat),
    decreases members_model(xs@), 1nat,
{
    let ghost xm = members_model(xs@);
    let ghost ym = members_model(ys@);
    let keys = ordered_keys(xs, ys);
    let ghost km = strings_model(keys@);
    proof {
        assert(km.len() == keys@.len());
    }
    let (added, n_added) = only_in_text(xs, ys, &keys);
    let (removed, n_removed) = only_in_text(ys, xs, &keys);
    let (modified, n_modified) = changed_members_text(xs, ys, &keys);
    if n_added == 0 && n_removed == 0 && n_modified == 0 {
        return None;
    }
    let out = object_text_exec(&added, n_added, &removed, n_removed, &modified, n_modified, flat, Ghost(only_in(xm, ym, km, km.len())), Ghost(only_in(ym, xm, km, km.len())), Ghost(changed_members(xm, ym, km, km.len())));
    Some(out)
}

} // verus!

verus! {

pub open spec fn diff_or_empty(d: Option<Seq<char>>) -> Seq<char> {
    match d {
        Some(t) => t,
        None => Seq::empty(),
    }
}

/// Writes the difference between `a` and `b` to `buf`; nothing where there is
/// none. `force_empty_array_diff` emits empty added/removed sections for equal
/// arrays; `flat_object_diff` puts an object's changed members at the top
/// level of its fragment instead of under "modified".
pub fn diff_json_value<B: ByteBuffer>(
    a: &JsonValue,
    b: &JsonValue,
    force_empty_array_diff: bool,
    flat_object_diff: bool,
    buf: &mut B,
)
    ensures
        final(buf).text() == old(buf).text() + diff_or_empty(
            diff(a@, b@, force_empty_array_diff, flat_object_diff),
        ),
{
    match diff_text(a, b, force_empty_array_diff, flat_object_diff) {
        Some(t) => {
            buf.push_str(t.as_str());
        },
        None => {
            assert(buf.text() =~= old(buf).text() + Seq::<char>::empty());
        },
    }
}

} // verus!
