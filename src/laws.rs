use vstd::prelude::*;
use crate::value::Json;
use crate::text::{hex, escape_char, escaped};
use crate::render::{line, raw_line, rendered};
use crate::diff::{same_scalar, Seg, ChangeModel, EntryModel, key_index, key_index_from, compare, compare_items, compare_members, added_members, removed_tail, added_tail, diff_model};

verus! {

/// Member names are unique within an object.
pub open spec fn keys_unique(ms: Seq<(Seq<char>, Json)>) -> bool {
    forall|i: int, j: int| 0 <= i < j < ms.len() ==> ms[i].0 != ms[j].0
}

/// Every object inside the value, at any depth, has unique member names.
pub open spec fn well_formed(j: Json) -> bool
    decreases j,
{
    match j {
        Json::Array(xs) => forall|i: int| 0 <= i < xs.len() ==> well_formed(#[trigger] xs[i]),
        Json::Object(ms) => keys_unique(ms) && forall|i: int|
            0 <= i < ms.len() ==> well_formed(#[trigger] ms[i].1),
        _ => true,
    }
}

/// `key_index_from` finds the first member named `k` from position `i` on.
pub proof fn lemma_key_index_from(ms: Seq<(Seq<char>, Json)>, k: Seq<char>, i: int)
    requires
        0 <= i <= ms.len(),
    ensures
        ({
            let r = key_index_from(ms, k, i);
            ||| (r == -1 && forall|m: int| i <= m < ms.len() ==> ms[m].0 != k)
            ||| (i <= r < ms.len() && ms[r].0 == k && forall|m: int| i <= m < r ==> ms[m].0 != k)
        }),
    decreases ms.len() - i,
{
    if i < ms.len() && ms[i].0 != k {
        lemma_key_index_from(ms, k, i + 1);
    }
}

/// `key_index` finds the first member named `k`, or gives -1 where none is.
pub proof fn lemma_key_index(ms: Seq<(Seq<char>, Json)>, k: Seq<char>)
    ensures
        key_index(ms, k) == -1 <==> forall|m: int| 0 <= m < ms.len() ==> ms[m].0 != k,
        key_index(ms, k) != -1 ==> 0 <= key_index(ms, k) < ms.len() && ms[key_index(ms, k)].0 == k
            && forall|m: int| 0 <= m < key_index(ms, k) ==> ms[m].0 != k,
{
    lemma_key_index_from(ms, k, 0);
}

proof fn lemma_key_index_unique(ms: Seq<(Seq<char>, Json)>, i: int)
    requires
        keys_unique(ms),
        0 <= i < ms.len(),
    ensures
        key_index(ms, ms[i].0) == i,
{
    lemma_key_index(ms, ms[i].0);
}

/// A member appended under a new name leaves the lookup of every other name
/// as it was.
proof fn lemma_key_index_push(ms: Seq<(Seq<char>, Json)>, x: (Seq<char>, Json), q: Seq<char>)
    requires
        x.0 != q,
    ensures
        key_index(ms.push(x), q) == key_index(ms, q),
{
    lemma_key_index(ms, q);
    lemma_key_index(ms.push(x), q);
    let a = key_index(ms, q);
    let b = key_index(ms.push(x), q);
    if a == -1 {
        if b != -1 {
            assert(ms.push(x)[b].0 == q);
        }
    } else {
        assert(ms.push(x)[a].0 == q);
        if b != -1 && b != a {
            if b < a {
                assert(ms[b].0 == q);
            }
        }
    }
}

/// A well-formed value compared with itself gives no differences.
pub proof fn lemma_compare_same(path: Seq<Seg>, v: Json)
    requires
        well_formed(v),
    ensures
        compare(path, v, v) == Seq::<EntryModel>::empty(),
    decreases v, 0int,
{
    match v {
        Json::Array(xs) => {
            lemma_compare_same_items(path, xs, xs.len() as int);
            assert(removed_tail(path, xs, xs.len() as int) =~= Seq::empty());
            assert(added_tail(path, xs, xs.len() as int) =~= Seq::empty());
            assert(compare(path, v, v) =~= Seq::empty());
        },
        Json::Object(ms) => {
            lemma_compare_same_members(path, ms, ms.len() as int);
            lemma_added_members_same(path, ms, ms.len() as int);
            assert(compare(path, v, v) =~= Seq::empty());
        },
        _ => {},
    }
}

proof fn lemma_compare_same_items(path: Seq<Seg>, xs: Seq<Json>, n: int)
    requires
        forall|i: int| 0 <= i < xs.len() ==> well_formed(#[trigger] xs[i]),
        n <= xs.len(),
    ensures
        compare_items(path, xs, xs, n) == Seq::<EntryModel>::empty(),
    decreases xs, n,
{
    if n > 0 {
        lemma_compare_same_items(path, xs, n - 1);
        lemma_compare_same(path.push(Seg::Index(n - 1)), xs[n - 1]);
        assert(compare_items(path, xs, xs, n) =~= Seq::empty());
    }
}

proof fn lemma_compare_same_members(path: Seq<Seg>, ms: Seq<(Seq<char>, Json)>, n: int)
    requires
        keys_unique(ms),
        forall|i: int| 0 <= i < ms.len() ==> well_formed(#[trigger] ms[i].1),
        n <= ms.len(),
    ensures
        compare_members(path, ms, ms, n) == Seq::<EntryModel>::empty(),
    decreases ms, n,
{
    if n > 0 {
        lemma_compare_same_members(path, ms, n - 1);
        lemma_key_index_unique(ms, n - 1);
        assert(decreases_to!(ms => ms[n - 1]));
        lemma_compare_same(path.push(Seg::Field(ms[n - 1].0)), ms[n - 1].1);
        assert(compare_members(path, ms, ms, n) =~= Seq::empty());
    }
}

proof fn lemma_added_members_same(path: Seq<Seg>, ms: Seq<(Seq<char>, Json)>, n: int)
    requires
        n <= ms.len(),
    ensures
        added_members(path, ms, ms, n) == Seq::<EntryModel>::empty(),
    decreases n,
{
    if n > 0 {
        lemma_added_members_same(path, ms, n - 1);
        lemma_key_index(ms, ms[n - 1].0);
        assert(added_members(path, ms, ms, n) =~= Seq::empty());
    }
}

/// Two values that are not both arrays nor both objects and are not equal as
/// scalars (a change of kind, or two different scalars) give exactly one
/// change at their path,
/// with nothing reported inside them.
pub proof fn law_kind_change(path: Seq<Seg>, a: Json, b: Json)
    requires
        !(a is Array && b is Array),
        !(a is Object && b is Object),
        !same_scalar(a, b),
    ensures
        compare(path, a, b) == seq![(path, ChangeModel::Changed(a, b))],
{
}

/// Comparing a well-formed value with itself reports nothing.
pub proof fn law_reflexive(v: Json)
    requires
        well_formed(v),
    ensures
        diff_model(Some(v), Some(v)) == Seq::<EntryModel>::empty(),
{
    lemma_compare_same(Seq::empty(), v);
}

/// A value that appears where there was none is one addition at the root, and
/// a value that disappears is one removal at the root, whatever they hold.
pub proof fn law_absence(v: Json)
    ensures
        diff_model(None, Some(v)) == seq![(Seq::<Seg>::empty(), ChangeModel::Added(v))],
        diff_model(Some(v), None) == seq![(Seq::<Seg>::empty(), ChangeModel::Removed(v))],
{
}


proof fn lemma_members_extended(
    path: Seq<Seg>,
    xs: Seq<(Seq<char>, Json)>,
    ys: Seq<(Seq<char>, Json)>,
    x: (Seq<char>, Json),
    n: int,
)
    requires
        n <= xs.len(),
        forall|i: int| 0 <= i < xs.len() ==> #[trigger] xs[i].0 != x.0,
    ensures
        compare_members(path, xs.push(x), ys.push(x), n) == compare_members(path, xs, ys, n),
    decreases n,
{
    if n > 0 {
        lemma_members_extended(path, xs, ys, x, n - 1);
        let k = xs[n - 1].0;
        lemma_key_index_push(ys, x, k);
        lemma_key_index(ys, k);
        assert(xs.push(x)[n - 1] == xs[n - 1]);
        if key_index(ys, k) >= 0 {
            assert(ys.push(x)[key_index(ys, k)] == ys[key_index(ys, k)]);
        }
    }
}

proof fn lemma_added_extended(
    path: Seq<Seg>,
    xs: Seq<(Seq<char>, Json)>,
    ys: Seq<(Seq<char>, Json)>,
    x: (Seq<char>, Json),
    n: int,
)
    requires
        n <= ys.len(),
        forall|i: int| 0 <= i < ys.len() ==> #[trigger] ys[i].0 != x.0,
    ensures
        added_members(path, xs.push(x), ys.push(x), n) == added_members(path, xs, ys, n),
    decreases n,
{
    if n > 0 {
        lemma_added_extended(path, xs, ys, x, n - 1);
        assert(ys.push(x)[n - 1] == ys[n - 1]);
        lemma_key_index_push(xs, x, ys[n - 1].0);
    }
}

/// A member that both objects gain, under a name that neither had and with
/// the same well-formed value, changes nothing in what is reported.
pub proof fn law_unrelated_key(
    path: Seq<Seg>,
    xs: Seq<(Seq<char>, Json)>,
    ys: Seq<(Seq<char>, Json)>,
    k: Seq<char>,
    v: Json,
)
    requires
        well_formed(v),
        forall|i: int| 0 <= i < xs.len() ==> #[trigger] xs[i].0 != k,
        forall|i: int| 0 <= i < ys.len() ==> #[trigger] ys[i].0 != k,
    ensures
        compare(path, Json::Object(xs.push((k, v))), Json::Object(ys.push((k, v)))) == compare(
            path,
            Json::Object(xs),
            Json::Object(ys),
        ),
{
    let x = (k, v);
    let xs2 = xs.push(x);
    let ys2 = ys.push(x);
    lemma_members_extended(path, xs, ys, x, xs.len() as int);
    lemma_added_extended(path, xs, ys, x, ys.len() as int);
    lemma_key_index(ys2, k);
    lemma_key_index(ys, k);
    assert(ys2[ys.len() as int].0 == k);
    assert(key_index(ys2, k) == ys.len()) by {
        assert forall|m: int| 0 <= m < ys.len() implies ys2[m].0 != k by {
            assert(ys2[m] == ys[m]);
        }
    };
    lemma_compare_same(path.push(Seg::Field(k)), v);
    assert(xs2[xs.len() as int] == x);
    assert(compare_members(path, xs2, ys2, xs2.len() as int) =~= compare_members(
        path,
        xs,
        ys,
        xs.len() as int,
    ));
    lemma_key_index(xs2, k);
    assert(xs2[xs.len() as int].0 == k);
    assert(added_members(path, xs2, ys2, ys2.len() as int) =~= added_members(
        path,
        xs,
        ys,
        ys.len() as int,
    ));
}


proof fn lemma_members_later_extended(
    path: Seq<Seg>,
    xs: Seq<(Seq<char>, Json)>,
    ys: Seq<(Seq<char>, Json)>,
    x: (Seq<char>, Json),
    n: int,
)
    requires
        n <= xs.len(),
        forall|i: int| 0 <= i < xs.len() ==> #[trigger] xs[i].0 != x.0,
    ensures
        compare_members(path, xs, ys.push(x), n) == compare_members(path, xs, ys, n),
    decreases n,
{
    if n > 0 {
        lemma_members_later_extended(path, xs, ys, x, n - 1);
        let k = xs[n - 1].0;
        lemma_key_index_push(ys, x, k);
        lemma_key_index(ys, k);
        if key_index(ys, k) >= 0 {
            assert(ys.push(x)[key_index(ys, k)] == ys[key_index(ys, k)]);
        }
    }
}

proof fn lemma_added_later_extended(
    path: Seq<Seg>,
    xs: Seq<(Seq<char>, Json)>,
    ys: Seq<(Seq<char>, Json)>,
    x: (Seq<char>, Json),
    n: int,
)
    requires
        n <= ys.len(),
    ensures
        added_members(path, xs, ys.push(x), n) == added_members(path, xs, ys, n),
    decreases n,
{
    if n > 0 {
        lemma_added_later_extended(path, xs, ys, x, n - 1);
        assert(ys.push(x)[n - 1] == ys[n - 1]);
    }
}

/// A member that only the later object gains, under a name that neither had,
/// is reported as one addition after everything else, which stays as it was.
pub proof fn law_new_key(
    path: Seq<Seg>,
    xs: Seq<(Seq<char>, Json)>,
    ys: Seq<(Seq<char>, Json)>,
    k: Seq<char>,
    v: Json,
)
    requires
        forall|i: int| 0 <= i < xs.len() ==> #[trigger] xs[i].0 != k,
    ensures
        compare(path, Json::Object(xs), Json::Object(ys.push((k, v)))) == compare(
            path,
            Json::Object(xs),
            Json::Object(ys),
        ).push((path.push(Seg::Field(k)), ChangeModel::Added(v))),
{
    let x = (k, v);
    lemma_members_later_extended(path, xs, ys, x, xs.len() as int);
    lemma_added_later_extended(path, xs, ys, x, ys.len() as int);
    lemma_key_index(xs, k);
    assert(ys.push(x)[ys.len() as int] == x);
    assert(compare(path, Json::Object(xs), Json::Object(ys.push(x))) =~= compare(
        path,
        Json::Object(xs),
        Json::Object(ys),
    ).push((path.push(Seg::Field(k)), ChangeModel::Added(v))));
}

/// The number of newline characters in `s`.
pub open spec fn newlines(s: Seq<char>) -> nat
    decreases s.len(),
{
    if s.len() == 0 {
        0
    } else {
        newlines(s.drop_last()) + if s.last() == '\n' {
            1nat
        } else {
            0nat
        }
    }
}

proof fn lemma_newlines_concat(a: Seq<char>, b: Seq<char>)
    ensures
        newlines(a + b) == newlines(a) + newlines(b),
    decreases b.len(),
{
    if b.len() == 0 {
        assert(a + b =~= a);
    } else {
        lemma_newlines_concat(a, b.drop_last());
        assert((a + b).drop_last() =~= a + b.drop_last());
    }
}

proof fn lemma_newlines_none(s: Seq<char>)
    requires
        !s.contains('\n'),
    ensures
        newlines(s) == 0,
    decreases s.len(),
{
    if s.len() > 0 {
        assert(s.last() == s[s.len() - 1]);
        assert forall|i: int| 0 <= i < s.drop_last().len() implies s.drop_last()[i] != '\n' by {
            assert(s.drop_last()[i] == s[i]);
        }
        lemma_newlines_none(s.drop_last());
    }
}

proof fn lemma_hex_no_newline(n: nat)
    ensures
        !hex(n).contains('\n'),
    decreases n,
{
    if n >= 16 {
        lemma_hex_no_newline(n / 16);
    }
}

proof fn lemma_escaped_no_newline(s: Seq<char>)
    ensures
        !escaped(s, false).contains('\n'),
        escaped(s, false).len() >= s.len(),
    decreases s.len(),
{
    if s.len() > 0 {
        lemma_escaped_no_newline(s.drop_last());
        let c = s.last();
        lemma_hex_no_newline(c as u32 as nat);
        let e = escape_char(c, false);
        assert(!e.contains('\n'));
        let t = escaped(s, false);
        assert(t == escaped(s.drop_last(), false) + e);
        assert forall|i: int| 0 <= i < t.len() implies t[i] != '\n' by {
            if i < escaped(s.drop_last(), false).len() {
                assert(t[i] == escaped(s.drop_last(), false)[i]);
            } else {
                assert(t[i] == e[i - escaped(s.drop_last(), false).len()]);
            }
        }
    }
}

/// Every entry is rendered as one line: no line holds a newline of its own,
/// the text holds one newline for each entry, and a single entry is a single
/// line with nothing before it.
pub proof fn law_one_line_per_entry(es: Seq<EntryModel>)
    ensures
        forall|i: int| 0 <= i < es.len() ==> !(#[trigger] line(es[i])).contains('\n') && line(es[i]).len() > 0,
        newlines(rendered(es)) == es.len(),
        es.len() == 1 ==> rendered(es) == line(es[0]).push('\n') && rendered(es)[0] != '\n',
    decreases es.len(),
{
    assert forall|i: int| 0 <= i < es.len() implies !(#[trigger] line(es[i])).contains('\n') && line(es[i]).len() > 0 by {
        lemma_escaped_no_newline(raw_line(es[i]));
    }
    if es.len() > 0 {
        law_one_line_per_entry(es.drop_last());
        let l = line(es.last());
        assert(l == line(es[es.len() - 1]));
        lemma_newlines_none(l);
        lemma_newlines_concat(rendered(es.drop_last()), l.push('\n'));
        assert(l.push('\n').drop_last() =~= l);
        if es.len() == 1 {
            assert(rendered(es.drop_last()) == Seq::<char>::empty());
            assert(rendered(es) =~= l.push('\n'));
            assert(l.len() > 0);
            assert(rendered(es)[0] == l[0]);
        }
    }
}


/// The same entry read the other way round: an addition becomes a removal,
/// a removal an addition, and a change swaps its two values.
pub open spec fn inverted(e: EntryModel) -> EntryModel {
    (
        e.0,
        match e.1 {
            ChangeModel::Added(v) => ChangeModel::Removed(v),
            ChangeModel::Removed(v) => ChangeModel::Added(v),
            ChangeModel::Changed(a, b) => ChangeModel::Changed(b, a),
        },
    )
}

proof fn lemma_contains_concat(a: Seq<EntryModel>, b: Seq<EntryModel>, e: EntryModel)
    ensures
        (a + b).contains(e) <==> a.contains(e) || b.contains(e),
{
    if (a + b).contains(e) {
        let k = choose|k: int| 0 <= k < (a + b).len() && (a + b)[k] == e;
        if k >= a.len() {
            assert(b[k - a.len()] == e);
        }
    }
    if a.contains(e) {
        let k = choose|k: int| 0 <= k < a.len() && a[k] == e;
        assert((a + b)[k] == e);
    }
    if b.contains(e) {
        let k = choose|k: int| 0 <= k < b.len() && b[k] == e;
        assert((a + b)[a.len() + k] == e);
    }
}

proof fn lemma_items_split(path: Seq<Seg>, xs: Seq<Json>, ys: Seq<Json>, n: int, e: EntryModel)
    requires
        compare_items(path, xs, ys, n).contains(e),
    ensures
        exists|i: int|
            0 <= i < n && n <= xs.len() && n <= ys.len() && #[trigger] compare(
                path.push(Seg::Index(i)),
                xs[i],
                ys[i],
            ).contains(e),
    decreases n,
{
    if n > 0 && n <= xs.len() && n <= ys.len() {
        let c = compare(path.push(Seg::Index(n - 1)), xs[n - 1], ys[n - 1]);
        lemma_contains_concat(compare_items(path, xs, ys, n - 1), c, e);
        if compare_items(path, xs, ys, n - 1).contains(e) {
            lemma_items_split(path, xs, ys, n - 1, e);
        }
    }
}

proof fn lemma_items_include(path: Seq<Seg>, xs: Seq<Json>, ys: Seq<Json>, n: int, i: int, e: EntryModel)
    requires
        0 <= i < n <= xs.len(),
        n <= ys.len(),
        compare(path.push(Seg::Index(i)), xs[i], ys[i]).contains(e),
    ensures
        compare_items(path, xs, ys, n).contains(e),
    decreases n,
{
    let c = compare(path.push(Seg::Index(n - 1)), xs[n - 1], ys[n - 1]);
    lemma_contains_concat(compare_items(path, xs, ys, n - 1), c, e);
    if i < n - 1 {
        lemma_items_include(path, xs, ys, n - 1, i, e);
    }
}

/// The part that the member at position `i` of `xs` adds to `compare_members`.
pub open spec fn member_part(
    path: Seq<Seg>,
    xs: Seq<(Seq<char>, Json)>,
    ys: Seq<(Seq<char>, Json)>,
    i: int,
) -> Seq<EntryModel> {
    let k = xs[i].0;
    let j = key_index(ys, k);
    if j < 0 {
        seq![(path.push(Seg::Field(k)), ChangeModel::Removed(xs[i].1))]
    } else {
        compare(path.push(Seg::Field(k)), xs[i].1, ys[j].1)
    }
}

proof fn lemma_members_split(
    path: Seq<Seg>,
    xs: Seq<(Seq<char>, Json)>,
    ys: Seq<(Seq<char>, Json)>,
    n: int,
    e: EntryModel,
)
    requires
        compare_members(path, xs, ys, n).contains(e),
    ensures
        exists|i: int| 0 <= i < n && n <= xs.len() && #[trigger] member_part(path, xs, ys, i).contains(e),
    decreases n,
{
    if n > 0 && n <= xs.len() {
        lemma_contains_concat(compare_members(path, xs, ys, n - 1), member_part(path, xs, ys, n - 1), e);
        if compare_members(path, xs, ys, n - 1).contains(e) {
            lemma_members_split(path, xs, ys, n - 1, e);
        } else {
            assert(member_part(path, xs, ys, n - 1).contains(e));
        }
    }
}

proof fn lemma_members_include(
    path: Seq<Seg>,
    xs: Seq<(Seq<char>, Json)>,
    ys: Seq<(Seq<char>, Json)>,
    n: int,
    i: int,
    e: EntryModel,
)
    requires
        0 <= i < n <= xs.len(),
        member_part(path, xs, ys, i).contains(e),
    ensures
        compare_members(path, xs, ys, n).contains(e),
    decreases n,
{
    lemma_contains_concat(compare_members(path, xs, ys, n - 1), member_part(path, xs, ys, n - 1), e);
    if i < n - 1 {
        lemma_members_include(path, xs, ys, n - 1, i, e);
    }
}

proof fn lemma_added_split(
    path: Seq<Seg>,
    xs: Seq<(Seq<char>, Json)>,
    ys: Seq<(Seq<char>, Json)>,
    n: int,
    e: EntryModel,
)
    requires
        added_members(path, xs, ys, n).contains(e),
    ensures
        exists|i: int|
            0 <= i < n && n <= ys.len() && key_index(xs, ys[i].0) < 0 && e == (
                path.push(Seg::Field(#[trigger] ys[i].0)),
                ChangeModel::Added(ys[i].1),
            ),
    decreases n,
{
    if n > 0 && n <= ys.len() {
        let last = if key_index(xs, ys[n - 1].0) < 0 {
            seq![(path.push(Seg::Field(ys[n - 1].0)), ChangeModel::Added(ys[n - 1].1))]
        } else {
            Seq::empty()
        };
        lemma_contains_concat(added_members(path, xs, ys, n - 1), last, e);
        if added_members(path, xs, ys, n - 1).contains(e) {
            lemma_added_split(path, xs, ys, n - 1, e);
        } else {
            assert(last.contains(e));
            assert(last[0] == e);
        }
    }
}

proof fn lemma_added_include(
    path: Seq<Seg>,
    xs: Seq<(Seq<char>, Json)>,
    ys: Seq<(Seq<char>, Json)>,
    n: int,
    i: int,
)
    requires
        0 <= i < n <= ys.len(),
        key_index(xs, ys[i].0) < 0,
    ensures
        added_members(path, xs, ys, n).contains(
            (path.push(Seg::Field(ys[i].0)), ChangeModel::Added(ys[i].1)),
        ),
    decreases n,
{
    let e = (path.push(Seg::Field(ys[i].0)), ChangeModel::Added(ys[i].1));
    let last = if key_index(xs, ys[n - 1].0) < 0 {
        seq![(path.push(Seg::Field(ys[n - 1].0)), ChangeModel::Added(ys[n - 1].1))]
    } else {
        Seq::empty()
    };
    lemma_contains_concat(added_members(path, xs, ys, n - 1), last, e);
    if i < n - 1 {
        lemma_added_include(path, xs, ys, n - 1, i);
    } else {
        assert(last[0] == e);
    }
}

proof fn lemma_symmetric(path: Seq<Seg>, a: Json, b: Json, e: EntryModel)
    requires
        well_formed(a),
        well_formed(b),
        compare(path, a, b).contains(e),
    ensures
        compare(path, b, a).contains(inverted(e)),
    decreases a,
{
    match (a, b) {
        (Json::Array(xs), Json::Array(ys)) => {
            let n: int = if xs.len() <= ys.len() { xs.len() as int } else { ys.len() as int };
            let items = compare_items(path, xs, ys, n);
            let rt = removed_tail(path, xs, n);
            let at = added_tail(path, ys, n);
            let items2 = compare_items(path, ys, xs, n);
            let rt2 = removed_tail(path, ys, n);
            let at2 = added_tail(path, xs, n);
            let f = inverted(e);
            assert(compare(path, a, b) == items + rt + at);
            assert(compare(path, b, a) == items2 + rt2 + at2);
            lemma_contains_concat(items + rt, at, e);
            lemma_contains_concat(items, rt, e);
            lemma_contains_concat(items2 + rt2, at2, f);
            lemma_contains_concat(items2, rt2, f);
            if items.contains(e) {
                lemma_items_split(path, xs, ys, n, e);
                let i = choose|i: int|
                    0 <= i < n && n <= xs.len() && n <= ys.len() && #[trigger] compare(
                        path.push(Seg::Index(i)),
                        xs[i],
                        ys[i],
                    ).contains(e);
                assert(decreases_to!(a => xs[i]));
                lemma_symmetric(path.push(Seg::Index(i)), xs[i], ys[i], e);
                lemma_items_include(path, ys, xs, n, i, f);
            } else if rt.contains(e) {
                let k = choose|k: int| 0 <= k < rt.len() && rt[k] == e;
                assert(at2[k] == f);
            } else {
                let k = choose|k: int| 0 <= k < at.len() && at[k] == e;
                assert(rt2[k] == f);
            }
        },
        (Json::Object(xs), Json::Object(ys)) => {
            let ms = compare_members(path, xs, ys, xs.len() as int);
            let ad = added_members(path, xs, ys, ys.len() as int);
            let ms2 = compare_members(path, ys, xs, ys.len() as int);
            let ad2 = added_members(path, ys, xs, xs.len() as int);
            let f = inverted(e);
            lemma_contains_concat(ms, ad, e);
            lemma_contains_concat(ms2, ad2, f);
            if ms.contains(e) {
                lemma_members_split(path, xs, ys, xs.len() as int, e);
                let i = choose|i: int|
                    0 <= i < xs.len() && xs.len() <= xs.len() && #[trigger] member_part(path, xs, ys, i).contains(e);
                let k = xs[i].0;
                let j = key_index(ys, k);
                lemma_key_index(ys, k);
                if j < 0 {
                    assert(member_part(path, xs, ys, i)[0] == e);
                    lemma_added_include(path, ys, xs, xs.len() as int, i);
                } else {
                    assert(decreases_to!(a => xs));
                    assert(decreases_to!(xs => xs[i]));
                    assert(decreases_to!(xs[i] => xs[i].1));
                    lemma_symmetric(path.push(Seg::Field(k)), xs[i].1, ys[j].1, e);
                    lemma_key_index_unique(xs, i);
                    assert(ys[j].0 == k);
                    assert(member_part(path, ys, xs, j).contains(f));
                    lemma_members_include(path, ys, xs, ys.len() as int, j, f);
                }
            } else {
                lemma_added_split(path, xs, ys, ys.len() as int, e);
                let i = choose|i: int|
                    0 <= i < ys.len() && ys.len() <= ys.len() && key_index(xs, ys[i].0) < 0 && e == (
                        path.push(Seg::Field(#[trigger] ys[i].0)),
                        ChangeModel::Added(ys[i].1),
                    );
                assert(member_part(path, ys, xs, i)[0] == f);
                assert(member_part(path, ys, xs, i).contains(f));
                lemma_members_include(path, ys, xs, ys.len() as int, i, f);
            }
        },
        _ => {
            assert(compare(path, a, b)[0] == e);
            assert(compare(path, b, a)[0] == inverted(e));
        },
    }
}

/// Comparing the other way round reports every difference read the other way
/// round: each addition as a removal, each removal as an addition, and each
/// change with its two values swapped, at the same path.
pub proof fn law_symmetric(prev: Option<Json>, curr: Option<Json>)
    requires
        prev is Some ==> well_formed(prev->0),
        curr is Some ==> well_formed(curr->0),
    ensures
        forall|i: int|
            0 <= i < diff_model(prev, curr).len() ==> diff_model(curr, prev).contains(
                inverted(#[trigger] diff_model(prev, curr)[i]),
            ),
{
    assert forall|i: int| 0 <= i < diff_model(prev, curr).len() implies diff_model(curr, prev).contains(
        inverted(#[trigger] diff_model(prev, curr)[i]),
    ) by {
        let e = diff_model(prev, curr)[i];
        match (prev, curr) {
            (Some(a), Some(b)) => {
                assert(compare(Seq::empty(), a, b).contains(e));
                lemma_symmetric(Seq::empty(), a, b, e);
            },
            _ => {
                assert(diff_model(curr, prev)[0] == inverted(e));
            },
        }
    }
}


/// Structural equality of well-formed values does not depend on the order of
/// the two operands.
pub proof fn law_equality_symmetric(a: Json, b: Json)
    requires
        well_formed(a),
        well_formed(b),
    ensures
        (compare(Seq::empty(), a, b).len() == 0) == (compare(Seq::empty(), b, a).len() == 0),
{
    if compare(Seq::empty(), a, b).len() > 0 {
        let e = compare(Seq::empty(), a, b)[0];
        lemma_symmetric(Seq::empty(), a, b, e);
    }
    if compare(Seq::empty(), b, a).len() > 0 {
        let e = compare(Seq::empty(), b, a)[0];
        lemma_symmetric(Seq::empty(), b, a, e);
    }
}


/// `q` begins with `p`.
pub open spec fn starts_with(q: Seq<Seg>, p: Seq<Seg>) -> bool {
    q.len() >= p.len() && q.subrange(0, p.len() as int) == p
}

/// No two entries have the same path.
pub open spec fn paths_distinct(s: Seq<EntryModel>) -> bool {
    forall|i: int, j: int| 0 <= i < j < s.len() ==> s[i].0 != s[j].0
}

proof fn lemma_starts_with_push(q: Seq<Seg>, p: Seq<Seg>, s: Seg)
    requires
        starts_with(q, p.push(s)),
    ensures
        starts_with(q, p),
        q.len() > p.len(),
        q[p.len() as int] == s,
{
    assert(q.subrange(0, p.len() as int) =~= p.push(s).subrange(0, p.len() as int));
    assert(p.push(s).subrange(0, p.len() as int) =~= p);
    assert(p.push(s)[p.len() as int] == s);
}

/// Every entry lies under `path`, and a change is reported only between
/// values that differ.
proof fn lemma_entry_shape(path: Seq<Seg>, a: Json, b: Json, e: EntryModel)
    requires
        compare(path, a, b).contains(e),
    ensures
        starts_with(e.0, path),
        e.1 is Changed ==> e.1->Changed_0 != e.1->Changed_1,
    decreases a,
{
    match (a, b) {
        (Json::Array(xs), Json::Array(ys)) => {
            let n: int = if xs.len() <= ys.len() { xs.len() as int } else { ys.len() as int };
            let items = compare_items(path, xs, ys, n);
            let rt = removed_tail(path, xs, n);
            let at = added_tail(path, ys, n);
            lemma_contains_concat(items + rt, at, e);
            lemma_contains_concat(items, rt, e);
            if items.contains(e) {
                lemma_items_split(path, xs, ys, n, e);
                let i = choose|i: int|
                    0 <= i < n && n <= xs.len() && n <= ys.len() && #[trigger] compare(
                        path.push(Seg::Index(i)),
                        xs[i],
                        ys[i],
                    ).contains(e);
                assert(decreases_to!(a => xs[i]));
                lemma_entry_shape(path.push(Seg::Index(i)), xs[i], ys[i], e);
                lemma_starts_with_push(e.0, path, Seg::Index(i));
            } else if rt.contains(e) {
                let k = choose|k: int| 0 <= k < rt.len() && rt[k] == e;
                assert(e.0.subrange(0, path.len() as int) =~= path);
            } else {
                let k = choose|k: int| 0 <= k < at.len() && at[k] == e;
                assert(e.0.subrange(0, path.len() as int) =~= path);
            }
        },
        (Json::Object(xs), Json::Object(ys)) => {
            let ms = compare_members(path, xs, ys, xs.len() as int);
            let ad = added_members(path, xs, ys, ys.len() as int);
            lemma_contains_concat(ms, ad, e);
            if ms.contains(e) {
                lemma_members_split(path, xs, ys, xs.len() as int, e);
                let i = choose|i: int|
                    0 <= i < xs.len() && xs.len() <= xs.len() && #[trigger] member_part(path, xs, ys, i).contains(e);
                let k = xs[i].0;
                let j = key_index(ys, k);
                lemma_key_index(ys, k);
                if j < 0 {
                    assert(member_part(path, xs, ys, i)[0] == e);
                    assert(e.0.subrange(0, path.len() as int) =~= path);
                } else {
                    assert(decreases_to!(a => xs));
                    assert(decreases_to!(xs => xs[i]));
                    assert(decreases_to!(xs[i] => xs[i].1));
                    lemma_entry_shape(path.push(Seg::Field(k)), xs[i].1, ys[j].1, e);
                    lemma_starts_with_push(e.0, path, Seg::Field(k));
                }
            } else {
                lemma_added_split(path, xs, ys, ys.len() as int, e);
                assert(e.0.subrange(0, path.len() as int) =~= path);
            }
        },
        _ => {
            assert(compare(path, a, b)[0] == e);
            assert(e.0.subrange(0, path.len() as int) =~= path);
        },
    }
}

/// An entry of the comparison of the children at step `s` has `s` right after
/// `path`.
proof fn lemma_child_step(path: Seq<Seg>, s: Seg, a: Json, b: Json, e: EntryModel)
    requires
        compare(path.push(s), a, b).contains(e),
    ensures
        e.0.len() > path.len(),
        e.0[path.len() as int] == s,
{
    lemma_entry_shape(path.push(s), a, b, e);
    lemma_starts_with_push(e.0, path, s);
}

proof fn lemma_distinct_concat(a: Seq<EntryModel>, b: Seq<EntryModel>)
    requires
        paths_distinct(a),
        paths_distinct(b),
        forall|e1: EntryModel, e2: EntryModel| a.contains(e1) && b.contains(e2) ==> e1.0 != e2.0,
    ensures
        paths_distinct(a + b),
{
    assert forall|i: int, j: int| 0 <= i < j < (a + b).len() implies (a + b)[i].0 != (a + b)[j].0 by {
        if i < a.len() && j >= a.len() {
            assert(a.contains(a[i]));
            assert(b.contains(b[j - a.len()]));
        } else if i >= a.len() {
            assert((a + b)[i] == b[i - a.len()]);
            assert((a + b)[j] == b[j - a.len()]);
        }
    }
}

proof fn lemma_distinct(path: Seq<Seg>, a: Json, b: Json)
    requires
        well_formed(a),
        well_formed(b),
    ensures
        paths_distinct(compare(path, a, b)),
    decreases a, 0int,
{
    match (a, b) {
        (Json::Array(xs), Json::Array(ys)) => {
            let n: int = if xs.len() <= ys.len() { xs.len() as int } else { ys.len() as int };
            let items = compare_items(path, xs, ys, n);
            let rt = removed_tail(path, xs, n);
            let at = added_tail(path, ys, n);
            lemma_items_distinct(path, xs, ys, n);
            assert forall|e1: EntryModel, e2: EntryModel| items.contains(e1) && rt.contains(e2) implies e1.0 != e2.0 by {
                lemma_items_split(path, xs, ys, n, e1);
                let i = choose|i: int|
                    0 <= i < n && n <= xs.len() && n <= ys.len() && #[trigger] compare(
                        path.push(Seg::Index(i)),
                        xs[i],
                        ys[i],
                    ).contains(e1);
                lemma_child_step(path, Seg::Index(i), xs[i], ys[i], e1);
                let k = choose|k: int| 0 <= k < rt.len() && rt[k] == e2;
                assert(e2.0[path.len() as int] == Seg::Index(n + k));
            }
            assert forall|i: int, j: int| 0 <= i < j < rt.len() implies rt[i].0 != rt[j].0 by {
                assert(rt[i].0[path.len() as int] != rt[j].0[path.len() as int]);
            }
            assert forall|i: int, j: int| 0 <= i < j < at.len() implies at[i].0 != at[j].0 by {
                assert(at[i].0[path.len() as int] != at[j].0[path.len() as int]);
            }
            lemma_distinct_concat(items, rt);
            assert forall|e1: EntryModel, e2: EntryModel| (items + rt).contains(e1) && at.contains(e2) implies e1.0 != e2.0 by {
                lemma_contains_concat(items, rt, e1);
                let k = choose|k: int| 0 <= k < at.len() && at[k] == e2;
                assert(e2.0[path.len() as int] == Seg::Index(n + k));
                if items.contains(e1) {
                    lemma_items_split(path, xs, ys, n, e1);
                    let i = choose|i: int|
                        0 <= i < n && n <= xs.len() && n <= ys.len() && #[trigger] compare(
                            path.push(Seg::Index(i)),
                            xs[i],
                            ys[i],
                        ).contains(e1);
                    lemma_child_step(path, Seg::Index(i), xs[i], ys[i], e1);
                } else {
                    assert(rt.len() > 0);
                }
            }
            lemma_distinct_concat(items + rt, at);
        },
        (Json::Object(xs), Json::Object(ys)) => {
            let ms = compare_members(path, xs, ys, xs.len() as int);
            let ad = added_members(path, xs, ys, ys.len() as int);
            lemma_members_distinct(path, xs, ys, xs.len() as int);
            lemma_added_distinct(path, xs, ys, ys.len() as int);
            assert forall|e1: EntryModel, e2: EntryModel| ms.contains(e1) && ad.contains(e2) implies e1.0 != e2.0 by {
                lemma_members_split(path, xs, ys, xs.len() as int, e1);
                let i = choose|i: int|
                    0 <= i < xs.len() && xs.len() <= xs.len() && #[trigger] member_part(path, xs, ys, i).contains(e1);
                lemma_member_step(path, xs, ys, i, e1);
                lemma_added_split(path, xs, ys, ys.len() as int, e2);
                let i2 = choose|i2: int|
                    0 <= i2 < ys.len() && ys.len() <= ys.len() && key_index(xs, ys[i2].0) < 0 && e2 == (
                        path.push(Seg::Field(#[trigger] ys[i2].0)),
                        ChangeModel::Added(ys[i2].1),
                    );
                lemma_key_index(xs, ys[i2].0);
                assert(e2.0[path.len() as int] == Seg::Field(ys[i2].0));
            }
            lemma_distinct_concat(ms, ad);
        },
        _ => {},
    }
}

/// An entry of the part of member `i` has that member's name right after
/// `path`.
proof fn lemma_member_step(
    path: Seq<Seg>,
    xs: Seq<(Seq<char>, Json)>,
    ys: Seq<(Seq<char>, Json)>,
    i: int,
    e: EntryModel,
)
    requires
        0 <= i < xs.len(),
        member_part(path, xs, ys, i).contains(e),
    ensures
        e.0.len() > path.len(),
        e.0[path.len() as int] == Seg::Field(xs[i].0),
{
    let k = xs[i].0;
    let j = key_index(ys, k);
    lemma_key_index(ys, k);
    if j < 0 {
        assert(member_part(path, xs, ys, i)[0] == e);
    } else {
        lemma_child_step(path, Seg::Field(k), xs[i].1, ys[j].1, e);
    }
}

proof fn lemma_items_distinct(path: Seq<Seg>, xs: Seq<Json>, ys: Seq<Json>, n: int)
    requires
        forall|i: int| 0 <= i < xs.len() ==> well_formed(#[trigger] xs[i]),
        forall|i: int| 0 <= i < ys.len() ==> well_formed(#[trigger] ys[i]),
    ensures
        paths_distinct(compare_items(path, xs, ys, n)),
    decreases xs, n,
{
    if n > 0 && n <= xs.len() && n <= ys.len() {
        let prev = compare_items(path, xs, ys, n - 1);
        let c = compare(path.push(Seg::Index(n - 1)), xs[n - 1], ys[n - 1]);
        lemma_items_distinct(path, xs, ys, n - 1);
        lemma_distinct(path.push(Seg::Index(n - 1)), xs[n - 1], ys[n - 1]);
        assert forall|e1: EntryModel, e2: EntryModel| prev.contains(e1) && c.contains(e2) implies e1.0 != e2.0 by {
            lemma_items_split(path, xs, ys, n - 1, e1);
            let i = choose|i: int|
                0 <= i < n - 1 && n - 1 <= xs.len() && n - 1 <= ys.len() && #[trigger] compare(
                    path.push(Seg::Index(i)),
                    xs[i],
                    ys[i],
                ).contains(e1);
            lemma_child_step(path, Seg::Index(i), xs[i], ys[i], e1);
            lemma_child_step(path, Seg::Index(n - 1), xs[n - 1], ys[n - 1], e2);
        }
        lemma_distinct_concat(prev, c);
    }
}

proof fn lemma_members_distinct(path: Seq<Seg>, xs: Seq<(Seq<char>, Json)>, ys: Seq<(Seq<char>, Json)>, n: int)
    requires
        keys_unique(xs),
        forall|i: int| 0 <= i < xs.len() ==> well_formed(#[trigger] xs[i].1),
        forall|i: int| 0 <= i < ys.len() ==> well_formed(#[trigger] ys[i].1),
    ensures
        paths_distinct(compare_members(path, xs, ys, n)),
    decreases xs, n,
{
    if n > 0 && n <= xs.len() {
        let prev = compare_members(path, xs, ys, n - 1);
        let c = member_part(path, xs, ys, n - 1);
        lemma_members_distinct(path, xs, ys, n - 1);
        let k = xs[n - 1].0;
        let j = key_index(ys, k);
        lemma_key_index(ys, k);
        if j >= 0 {
            assert(decreases_to!(xs => xs[n - 1]));
            lemma_distinct(path.push(Seg::Field(k)), xs[n - 1].1, ys[j].1);
        }
        assert forall|e1: EntryModel, e2: EntryModel| prev.contains(e1) && c.contains(e2) implies e1.0 != e2.0 by {
            lemma_members_split(path, xs, ys, n - 1, e1);
            let i = choose|i: int|
                0 <= i < n - 1 && n - 1 <= xs.len() && #[trigger] member_part(path, xs, ys, i).contains(e1);
            lemma_member_step(path, xs, ys, i, e1);
            lemma_member_step(path, xs, ys, n - 1, e2);
        }
        assert(compare_members(path, xs, ys, n) == prev + c);
        lemma_distinct_concat(prev, c);
    }
}

proof fn lemma_added_distinct(path: Seq<Seg>, xs: Seq<(Seq<char>, Json)>, ys: Seq<(Seq<char>, Json)>, n: int)
    requires
        keys_unique(ys),
    ensures
        paths_distinct(added_members(path, xs, ys, n)),
    decreases n,
{
    if n > 0 && n <= ys.len() {
        let prev = added_members(path, xs, ys, n - 1);
        let last = if key_index(xs, ys[n - 1].0) < 0 {
            seq![(path.push(Seg::Field(ys[n - 1].0)), ChangeModel::Added(ys[n - 1].1))]
        } else {
            Seq::empty()
        };
        lemma_added_distinct(path, xs, ys, n - 1);
        assert forall|e1: EntryModel, e2: EntryModel| prev.contains(e1) && last.contains(e2) implies e1.0 != e2.0 by {
            lemma_added_split(path, xs, ys, n - 1, e1);
            let i = choose|i: int|
                0 <= i < n - 1 && n - 1 <= ys.len() && key_index(xs, ys[i].0) < 0 && e1 == (
                    path.push(Seg::Field(#[trigger] ys[i].0)),
                    ChangeModel::Added(ys[i].1),
                );
            assert(last[0] == e2);
            assert(e1.0[path.len() as int] != e2.0[path.len() as int]);
        }
        lemma_distinct_concat(prev, last);
    }
}

/// Between two well-formed values each path is reported at most once, so no
/// difference is ever reported in both directions at once.
pub proof fn law_one_direction(prev: Option<Json>, curr: Option<Json>)
    requires
        prev is Some ==> well_formed(prev->0),
        curr is Some ==> well_formed(curr->0),
    ensures
        paths_distinct(diff_model(prev, curr)),
        forall|i: int|
            0 <= i < diff_model(prev, curr).len() ==> !diff_model(prev, curr).contains(
                inverted(#[trigger] diff_model(prev, curr)[i]),
            ),
{
    let d = diff_model(prev, curr);
    match (prev, curr) {
        (Some(a), Some(b)) => {
            lemma_distinct(Seq::empty(), a, b);
        },
        _ => {},
    }
    assert forall|i: int| 0 <= i < d.len() implies !d.contains(inverted(#[trigger] d[i])) by {
        if d.contains(inverted(d[i])) {
            let j = choose|j: int| 0 <= j < d.len() && d[j] == inverted(d[i]);
            assert(d[j].0 == d[i].0);
            assert(i == j);
            match (prev, curr) {
                (Some(a), Some(b)) => {
                    assert(compare(Seq::empty(), a, b).contains(d[i]));
                    lemma_entry_shape(Seq::empty(), a, b, d[i]);
                },
                _ => {},
            }
        }
    }
}

} // verus!
