use vstd::prelude::*;
use crate::value::{Json, Number, Value, view_items, view_members, lemma_view_items, lemma_view_members};

verus! {

/// The model of one step of a path: a member name or an array position.
pub enum Seg {
    Field(Seq<char>),
    Index(int),
}

/// The model of one difference.
pub enum ChangeModel {
    Added(Json),
    Removed(Json),
    Changed(Json, Json),
}

/// The model of an entry: where, and what.
pub type EntryModel = (Seq<Seg>, ChangeModel);

/// One step of a path into a value: a member name or an array position.
#[derive(Debug, Clone, PartialEq)]
pub enum Segment {
    Field(String),
    Index(usize),
}

impl Segment {
    pub open spec fn view(&self) -> Seg {
        match self {
            Segment::Field(k) => Seg::Field(k@),
            Segment::Index(i) => Seg::Index(*i as int),
        }
    }
}

pub open spec fn path_view(p: Seq<Segment>) -> Seq<Seg> {
    p.map_values(|s: Segment| s.view())
}

/// What changed at one place.
#[derive(Debug, PartialEq)]
pub enum Change {
    Added(Value),
    Removed(Value),
    Changed(Value, Value),
}

impl Change {
    pub open spec fn view(&self) -> ChangeModel {
        match self {
            Change::Added(v) => ChangeModel::Added(v.view()),
            Change::Removed(v) => ChangeModel::Removed(v.view()),
            Change::Changed(a, b) => ChangeModel::Changed(a.view(), b.view()),
        }
    }
}

/// One difference: the path of the place and what changed there.
#[derive(Debug, PartialEq)]
pub struct DiffEntry {
    pub path: Vec<Segment>,
    pub change: Change,
}

impl DiffEntry {
    pub open spec fn view(&self) -> EntryModel {
        (path_view(self.path@), self.change.view())
    }
}

pub open spec fn entries_view(es: Seq<DiffEntry>) -> Seq<EntryModel> {
    es.map_values(|e: DiffEntry| e.view())
}

/// The position of the first member named `k`, from position `i` on, or -1.
pub open spec fn key_index_from(ms: Seq<(Seq<char>, Json)>, k: Seq<char>, i: int) -> int
    decreases ms.len() - i,
{
    if i < 0 || i >= ms.len() {
        -1
    } else if ms[i].0 == k {
        i
    } else {
        key_index_from(ms, k, i + 1)
    }
}

/// The position of the first member named `k`, or -1.
pub open spec fn key_index(ms: Seq<(Seq<char>, Json)>, k: Seq<char>) -> int {
    key_index_from(ms, k, 0)
}

/// The shortest decimal texts of zero, positive and negative.
pub open spec fn is_zero_text(t: Seq<char>) -> bool {
    t == seq!['0', '.', '0'] || t == seq!['-', '0', '.', '0']
}

/// Equality of values compared as scalars: floating-point numbers by the
/// number their texts stand for (so zero equals negative zero), everything
/// else as it is.
pub open spec fn same_scalar(a: Json, b: Json) -> bool {
    match (a, b) {
        (Json::Float(x), Json::Float(y)) => x == y || (is_zero_text(x) && is_zero_text(y)),
        _ => a == b,
    }
}

/// The differences between two values at `path`: nothing where they are
/// equal scalars; member by member for two objects, position by position for
/// two arrays; else one `Changed`.
pub open spec fn compare(path: Seq<Seg>, earlier: Json, later: Json) -> Seq<EntryModel>
    decreases earlier, 0int,
{
    match (earlier, later) {
        (Json::Array(xs), Json::Array(ys)) => {
            let n: int = if xs.len() <= ys.len() { xs.len() as int } else { ys.len() as int };
            compare_items(path, xs, ys, n) + removed_tail(path, xs, n) + added_tail(path, ys, n)
        },
        (Json::Object(xs), Json::Object(ys)) => {
            compare_members(path, xs, ys, xs.len() as int) + added_members(path, xs, ys, ys.len() as int)
        },
        _ => if same_scalar(earlier, later) {
            Seq::empty()
        } else {
            seq![(path, ChangeModel::Changed(earlier, later))]
        },
    }
}

/// The differences between the first `n` items of two arrays, by position.
pub open spec fn compare_items(path: Seq<Seg>, xs: Seq<Json>, ys: Seq<Json>, n: int) -> Seq<EntryModel>
    decreases xs, n,
{
    if n <= 0 || n > xs.len() || n > ys.len() {
        Seq::empty()
    } else {
        compare_items(path, xs, ys, n - 1) + compare(path.push(Seg::Index(n - 1)), xs[n - 1], ys[n - 1])
    }
}

/// The items of `xs` from position `n` on, each removed.
pub open spec fn removed_tail(path: Seq<Seg>, xs: Seq<Json>, n: int) -> Seq<EntryModel> {
    Seq::new(
        (xs.len() - n) as nat,
        |j: int| (path.push(Seg::Index(n + j)), ChangeModel::Removed(xs[n + j])),
    )
}

/// The items of `ys` from position `n` on, each added.
pub open spec fn added_tail(path: Seq<Seg>, ys: Seq<Json>, n: int) -> Seq<EntryModel> {
    Seq::new(
        (ys.len() - n) as nat,
        |j: int| (path.push(Seg::Index(n + j)), ChangeModel::Added(ys[n + j])),
    )
}

/// The differences for the first `n` members of the old object: removed where
/// the new object has no member of that name, else compared with it.
pub open spec fn compare_members(
    path: Seq<Seg>,
    xs: Seq<(Seq<char>, Json)>,
    ys: Seq<(Seq<char>, Json)>,
    n: int,
) -> Seq<EntryModel>
    decreases xs, n,
{
    if n <= 0 || n > xs.len() {
        Seq::empty()
    } else {
        let k = xs[n - 1].0;
        let j = key_index(ys, k);
        compare_members(path, xs, ys, n - 1) + if j < 0 {
            seq![(path.push(Seg::Field(k)), ChangeModel::Removed(xs[n - 1].1))]
        } else {
            compare(path.push(Seg::Field(k)), xs[n - 1].1, ys[j].1)
        }
    }
}

/// The members among the first `n` of the new object whose name the old
/// object lacks, each added.
pub open spec fn added_members(
    path: Seq<Seg>,
    xs: Seq<(Seq<char>, Json)>,
    ys: Seq<(Seq<char>, Json)>,
    n: int,
) -> Seq<EntryModel>
    decreases n,
{
    if n <= 0 || n > ys.len() {
        Seq::empty()
    } else {
        added_members(path, xs, ys, n - 1) + if key_index(xs, ys[n - 1].0) < 0 {
            seq![(path.push(Seg::Field(ys[n - 1].0)), ChangeModel::Added(ys[n - 1].1))]
        } else {
            Seq::empty()
        }
    }
}

/// The differences between an earlier and a later sample, either of which
/// may be missing.
pub open spec fn diff_model(prev: Option<Json>, curr: Option<Json>) -> Seq<EntryModel> {
    match (prev, curr) {
        (None, None) => Seq::empty(),
        (None, Some(v)) => seq![(Seq::empty(), ChangeModel::Added(v))],
        (Some(v), None) => seq![(Seq::empty(), ChangeModel::Removed(v))],
        (Some(a), Some(b)) => compare(Seq::empty(), a, b),
    }
}


pub open spec fn opt_view(o: Option<&Value>) -> Option<Json> {
    match o {
        Some(v) => Some(v.view()),
        None => None,
    }
}

/// The differences found between two samples, in the order they were found.
pub struct DiffResult {
    entries: Vec<DiffEntry>,
}

impl DiffResult {
    pub closed spec fn view(&self) -> Seq<EntryModel> {
        entries_view(self.entries@)
    }

    /// The number of differences.
    pub fn len(&self) -> (r: usize)
        ensures
            r == self.view().len(),
    {
        self.entries.len()
    }

    /// Whether there are no differences.
    pub fn is_empty(&self) -> (r: bool)
        ensures
            r == (self.view().len() == 0),
    {
        self.entries.len() == 0
    }

    /// The differences, in the order they were found.
    pub fn entries(&self) -> (r: &Vec<DiffEntry>)
        ensures
            entries_view(r@) == self.view(),
    {
        &self.entries
    }
}

fn copy_segment(s: &Segment) -> (r: Segment)
    ensures
        r.view() == s.view(),
{
    match s {
        Segment::Field(k) => Segment::Field(k.clone()),
        Segment::Index(i) => Segment::Index(*i),
    }
}

/// A copy of `path` with `last` added at its end.
fn extended_path(path: &Vec<Segment>, last: Segment) -> (r: Vec<Segment>)
    ensures
        path_view(r@) == path_view(path@).push(last.view()),
{
    let mut r = copy_path(path);
    r.push(last);
    assert(path_view(r@) =~= path_view(path@).push(last.view()));
    r
}

fn push_entry(out: &mut Vec<DiffEntry>, path: Vec<Segment>, change: Change)
    ensures
        entries_view(final(out)@) =~= entries_view(old(out)@).push(
            (path_view(path@), change.view()),
        ),
{
    out.push(DiffEntry { path, change });
}

/// The position of the first member of `ms` named `k`.
fn find_key(ms: &Vec<(String, Value)>, k: &String) -> (r: Option<usize>)
    ensures
        match r {
            Some(j) => j < ms.len() && j as int == key_index(view_members(ms@), k@),
            None => key_index(view_members(ms@), k@) == -1,
        },
{
    proof {
        lemma_view_members(ms@);
    }
    let mut i: usize = 0;
    while i < ms.len()
        invariant
            i <= ms.len(),
            view_members(ms@).len() == ms.len(),
            forall|j: int|
                0 <= j < ms.len() ==> #[trigger] view_members(ms@)[j] == (ms@[j].0@, ms@[j].1.view()),
            key_index(view_members(ms@), k@) == key_index_from(view_members(ms@), k@, i as int),
        decreases ms.len() - i,
    {
        assert(view_members(ms@)[i as int] == (ms@[i as int].0@, ms@[i as int].1.view()));
        if ms[i].0 == *k {
            return Some(i);
        }
        i = i + 1;
    }
    None
}

fn zero_text(t: &String) -> (r: bool)
    ensures
        r == is_zero_text(t@),
{
    let s = t.as_str();
    let n = s.unicode_len();
    if n == 3 {
        let r = s.get_char(0) == '0' && s.get_char(1) == '.' && s.get_char(2) == '0';
        if r {
            assert(t@ =~= seq!['0', '.', '0']);
        }
        r
    } else if n == 4 {
        let r = s.get_char(0) == '-' && s.get_char(1) == '0' && s.get_char(2) == '.' && s.get_char(3)
            == '0';
        if r {
            assert(t@ =~= seq!['-', '0', '.', '0']);
        }
        r
    } else {
        false
    }
}

/// Equality of two values that are not both arrays nor both objects.
fn scalar_equal(a: &Value, b: &Value) -> (r: bool)
    requires
        !(a is Array && b is Array),
        !(a is Object && b is Object),
    ensures
        r == same_scalar(a.view(), b.view()),
{
    match (a, b) {
        (Value::Null, Value::Null) => true,
        (Value::Bool(x), Value::Bool(y)) => *x == *y,
        (Value::Number(Number::Int(x)), Value::Number(Number::Int(y))) => *x == *y,
        (Value::Number(Number::Float(x)), Value::Number(Number::Float(y))) => *x == *y || (
        zero_text(x) && zero_text(y)),
        (Value::String(x), Value::String(y)) => *x == *y,
        _ => false,
    }
}

/// Appends to `out` the differences between `earlier` and `later` under
/// `path`, which serves as scratch space and is given back as it was.
fn compare_into(path: &mut Vec<Segment>, earlier: &Value, later: &Value, out: &mut Vec<DiffEntry>)
    ensures
        final(path)@ == old(path)@,
        entries_view(final(out)@) == entries_view(old(out)@) + compare(
            path_view(old(path)@),
            earlier.view(),
            later.view(),
        ),
    decreases earlier,
{
    let ghost p0 = path@;
    let ghost pv = path_view(path@);
    let ghost e0 = entries_view(out@);
    match (earlier, later) {
        (Value::Array(xs), Value::Array(ys)) => {
            let ghost xv = view_items(xs@);
            let ghost yv = view_items(ys@);
            proof {
                lemma_view_items(xs@);
                lemma_view_items(ys@);
            }
            let n: usize = if xs.len() <= ys.len() { xs.len() } else { ys.len() };
            let mut i: usize = 0;
            while i < n
                invariant
                    *earlier == Value::Array(*xs),
                    n <= xs.len(),
                    n <= ys.len(),
                    i <= n,
                    path@ == p0,
                    pv == path_view(p0),
                    xv == view_items(xs@),
                    yv == view_items(ys@),
                    xv.len() == xs.len(),
                    yv.len() == ys.len(),
                    forall|j: int| 0 <= j < xs.len() ==> #[trigger] xv[j] == xs@[j].view(),
                    forall|j: int| 0 <= j < ys.len() ==> #[trigger] yv[j] == ys@[j].view(),
                    entries_view(out@) == e0 + compare_items(pv, xv, yv, i as int),
                decreases n - i,
            {
                proof {
                    assert(decreases_to!(*earlier => earlier->Array_0));
                    assert(decreases_to!(xs => xs[i as int]));
                }
                path.push(Segment::Index(i));
                assert(path_view(path@) =~= pv.push(Seg::Index(i as int)));
                compare_into(path, &xs[i], &ys[i], out);
                path.pop();
                assert(path@ =~= p0);
                i = i + 1;
                assert(entries_view(out@) =~= e0 + compare_items(pv, xv, yv, i as int));
            }
            let ghost e1 = entries_view(out@);
            let mut i: usize = n;
            while i < xs.len()
                invariant
                    n <= i <= xs.len(),
                    path@ == p0,
                    pv == path_view(p0),
                    xv.len() == xs.len(),
                    forall|j: int| 0 <= j < xs.len() ==> #[trigger] xv[j] == xs@[j].view(),
                    entries_view(out@) =~= e1 + removed_tail(pv, xv, n as int).subrange(
                        0,
                        i - n,
                    ),
                decreases xs.len() - i,
            {
                let p = extended_path(path, Segment::Index(i));
                push_entry(out, p, Change::Removed(xs[i].deep_copy()));
                i = i + 1;
                assert(entries_view(out@) =~= e1 + removed_tail(pv, xv, n as int).subrange(
                    0,
                    i - n,
                ));
            }
            assert(removed_tail(pv, xv, n as int).subrange(0, xs.len() - n) =~= removed_tail(pv, xv, n as int));
            let ghost e2 = entries_view(out@);
            let mut i: usize = n;
            while i < ys.len()
                invariant
                    n <= i <= ys.len(),
                    path@ == p0,
                    pv == path_view(p0),
                    yv.len() == ys.len(),
                    forall|j: int| 0 <= j < ys.len() ==> #[trigger] yv[j] == ys@[j].view(),
                    entries_view(out@) =~= e2 + added_tail(pv, yv, n as int).subrange(
                        0,
                        i - n,
                    ),
                decreases ys.len() - i,
            {
                let p = extended_path(path, Segment::Index(i));
                push_entry(out, p, Change::Added(ys[i].deep_copy()));
                i = i + 1;
                assert(entries_view(out@) =~= e2 + added_tail(pv, yv, n as int).subrange(
                    0,
                    i - n,
                ));
            }
            assert(added_tail(pv, yv, n as int).subrange(0, ys.len() - n) =~= added_tail(pv, yv, n as int));
            assert(entries_view(out@) =~= e0 + compare(pv, earlier.view(), later.view()));
        },
        (Value::Object(xs), Value::Object(ys)) => {
            let ghost xv = view_members(xs@);
            let ghost yv = view_members(ys@);
            proof {
                lemma_view_members(xs@);
                lemma_view_members(ys@);
            }
            let mut i: usize = 0;
            while i < xs.len()
                invariant
                    *earlier == Value::Object(*xs),
                    i <= xs.len(),
                    path@ == p0,
                    pv == path_view(p0),
                    xv == view_members(xs@),
                    yv == view_members(ys@),
                    xv.len() == xs.len(),
                    yv.len() == ys.len(),
                    forall|j: int| 0 <= j < xs.len() ==> #[trigger] xv[j] == (xs@[j].0@, xs@[j].1.view()),
                    forall|j: int| 0 <= j < ys.len() ==> #[trigger] yv[j] == (ys@[j].0@, ys@[j].1.view()),
                    entries_view(out@) == e0 + compare_members(pv, xv, yv, i as int),
                decreases xs.len() - i,
            {
                let ghost before = entries_view(out@);
                match find_key(ys, &xs[i].0) {
                    None => {
                        let p = extended_path(path, Segment::Field(xs[i].0.clone()));
                        push_entry(out, p, Change::Removed(xs[i].1.deep_copy()));
                    },
                    Some(j) => {
                        proof {
                            assert(decreases_to!(*earlier => earlier->Object_0));
                            assert(decreases_to!(xs => xs[i as int]));
                            assert(decreases_to!(xs[i as int] => xs[i as int].1));
                        }
                        path.push(Segment::Field(xs[i].0.clone()));
                        assert(path_view(path@) =~= pv.push(Seg::Field(xv[i as int].0)));
                        compare_into(path, &xs[i].1, &ys[j].1, out);
                        path.pop();
                        assert(path@ =~= p0);
                    },
                }
                i = i + 1;
                assert(entries_view(out@) =~= e0 + compare_members(pv, xv, yv, i as int));
            }
            let ghost e1 = entries_view(out@);
            let mut i: usize = 0;
            while i < ys.len()
                invariant
                    i <= ys.len(),
                    path@ == p0,
                    pv == path_view(p0),
                    xv == view_members(xs@),
                    yv.len() == ys.len(),
                    forall|j: int| 0 <= j < ys.len() ==> #[trigger] yv[j] == (ys@[j].0@, ys@[j].1.view()),
                    entries_view(out@) == e1 + added_members(pv, xv, yv, i as int),
                decreases ys.len() - i,
            {
                match find_key(xs, &ys[i].0) {
                    None => {
                        let p = extended_path(path, Segment::Field(ys[i].0.clone()));
                        push_entry(out, p, Change::Added(ys[i].1.deep_copy()));
                    },
                    Some(_) => {},
                }
                i = i + 1;
                assert(entries_view(out@) =~= e1 + added_members(pv, xv, yv, i as int));
            }
            assert(entries_view(out@) =~= e0 + compare(pv, earlier.view(), later.view()));
        },
        _ => {
            if !scalar_equal(earlier, later) {
                let p = copy_path(path);
                push_entry(out, p, Change::Changed(earlier.deep_copy(), later.deep_copy()));
            }
            assert(entries_view(out@) =~= e0 + compare(pv, earlier.view(), later.view()));
        },
    }
}

/// A copy of `path`.
fn copy_path(path: &Vec<Segment>) -> (r: Vec<Segment>)
    ensures
        path_view(r@) == path_view(path@),
{
    let mut r: Vec<Segment> = Vec::new();
    let mut i: usize = 0;
    while i < path.len()
        invariant
            i <= path.len(),
            r@.len() == i,
            forall|j: int| 0 <= j < i ==> #[trigger] r@[j].view() == path@[j].view(),
        decreases path.len() - i,
    {
        r.push(copy_segment(&path[i]));
        i = i + 1;
    }
    assert(path_view(r@) =~= path_view(path@));
    r
}

impl Value {
    /// Structural equality: no difference is found between the two values.
    /// Member order does not count, and numbers compare by value.
    pub fn equals(&self, other: &Value) -> (r: bool)
        ensures
            r == (compare(Seq::empty(), self.view(), other.view()).len() == 0),
    {
        diff(Some(self), Some(other)).is_empty()
    }
}

/// The differences between an earlier sample `prev` and a later one `curr`,
/// either of which may be missing.
pub fn diff(prev: Option<&Value>, curr: Option<&Value>) -> (r: DiffResult)
    ensures
        r.view() == diff_model(opt_view(prev), opt_view(curr)),
{
    let mut out: Vec<DiffEntry> = Vec::new();
    assert(path_view(Seq::<Segment>::empty()) =~= Seq::<Seg>::empty());
    match (prev, curr) {
        (None, None) => {},
        (None, Some(v)) => {
            push_entry(&mut out, Vec::new(), Change::Added(v.deep_copy()));
        },
        (Some(v), None) => {
            push_entry(&mut out, Vec::new(), Change::Removed(v.deep_copy()));
        },
        (Some(a), Some(b)) => {
            let mut path: Vec<Segment> = Vec::new();
            compare_into(&mut path, a, b, &mut out);
        },
    }
    let r = DiffResult { entries: out };
    assert(r.view() =~= diff_model(opt_view(prev), opt_view(curr)));
    r
}

} // verus!
