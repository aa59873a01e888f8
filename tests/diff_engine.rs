use jsonwatch::diff::{diff, Change, DiffEntry, Segment};
use jsonwatch::text::escape_for_terminal;
use jsonwatch::value::{Number, Value};

fn num(i: i128) -> Value {
    Value::Number(Number::Int(i))
}

fn text(s: &str) -> Value {
    Value::String(s.to_string())
}

fn obj(members: Vec<(&str, Value)>) -> Value {
    Value::Object(members.into_iter().map(|(k, v)| (k.to_string(), v)).collect())
}

fn arr(items: Vec<Value>) -> Value {
    Value::Array(items)
}

fn field(k: &str) -> Segment {
    Segment::Field(k.to_string())
}

fn only_entry(prev: Option<&Value>, curr: Option<&Value>) -> DiffEntry {
    let r = diff(prev, curr);
    assert_eq!(r.len(), 1);
    let mut es = Vec::new();
    for e in r.entries() {
        es.push(DiffEntry { path: e.path.clone(), change: copy_change(&e.change) });
    }
    es.pop().unwrap()
}

fn copy_change(c: &Change) -> Change {
    match c {
        Change::Added(v) => Change::Added(v.deep_copy()),
        Change::Removed(v) => Change::Removed(v.deep_copy()),
        Change::Changed(a, b) => Change::Changed(a.deep_copy(), b.deep_copy()),
    }
}

#[test]
fn changed_member_is_one_entry() {
    let prev = obj(vec![("status", text("ok")), ("count", num(3))]);
    let curr = obj(vec![("status", text("ok")), ("count", num(4))]);
    let e = only_entry(Some(&prev), Some(&curr));
    assert_eq!(e.path, vec![field("count")]);
    assert_eq!(e.change, Change::Changed(num(3), num(4)));
}

#[test]
fn first_sample_is_added_at_root() {
    let curr = obj(vec![("a", num(1))]);
    let e = only_entry(None, Some(&curr));
    assert_eq!(e.path, Vec::<Segment>::new());
    assert_eq!(e.change, Change::Added(obj(vec![("a", num(1))])));
}

#[test]
fn missing_member_is_removed() {
    let prev = obj(vec![("a", num(1)), ("b", num(2))]);
    let curr = obj(vec![("b", num(2))]);
    let e = only_entry(Some(&prev), Some(&curr));
    assert_eq!(e.path, vec![field("a")]);
    assert_eq!(e.change, Change::Removed(num(1)));
}

#[test]
fn lost_sample_is_removed_at_root() {
    let prev = arr(vec![num(1), obj(vec![("x", Value::Null)])]);
    let e = only_entry(Some(&prev), None);
    assert_eq!(e.path, Vec::<Segment>::new());
    assert_eq!(e.change, Change::Removed(arr(vec![num(1), obj(vec![("x", Value::Null)])])));
}

#[test]
fn nothing_observed_is_empty() {
    let r = diff(None, None);
    assert!(r.is_empty());
    assert_eq!(r.len(), 0);
    assert_eq!(r.render(), "");
}

#[test]
fn longer_array_adds_at_end() {
    let prev = arr(vec![num(1), num(2), num(3)]);
    let curr = arr(vec![num(1), num(2), num(3), num(4)]);
    let e = only_entry(Some(&prev), Some(&curr));
    assert_eq!(e.path, vec![Segment::Index(3)]);
    assert_eq!(e.change, Change::Added(num(4)));
}

#[test]
fn shorter_array_removes_at_end() {
    let prev = arr(vec![num(1), num(2), num(3)]);
    let curr = arr(vec![num(1)]);
    let r = diff(Some(&prev), Some(&curr));
    assert_eq!(r.len(), 2);
    assert_eq!(r.entries()[0].path, vec![Segment::Index(1)]);
    assert_eq!(r.entries()[0].change, Change::Removed(num(2)));
    assert_eq!(r.entries()[1].path, vec![Segment::Index(2)]);
    assert_eq!(r.entries()[1].change, Change::Removed(num(3)));
}

#[test]
fn array_items_compare_by_position() {
    let prev = arr(vec![num(1), num(2), num(3)]);
    let curr = arr(vec![num(9), num(2), num(3)]);
    let e = only_entry(Some(&prev), Some(&curr));
    assert_eq!(e.path, vec![Segment::Index(0)]);
    assert_eq!(e.change, Change::Changed(num(1), num(9)));
}

#[test]
fn change_of_kind_is_not_broken_down() {
    let prev = obj(vec![("a", num(1))]);
    let curr = arr(vec![num(1)]);
    let e = only_entry(Some(&prev), Some(&curr));
    assert_eq!(e.path, Vec::<Segment>::new());
    assert_eq!(e.change, Change::Changed(obj(vec![("a", num(1))]), arr(vec![num(1)])));
}

#[test]
fn integer_and_float_differ() {
    let prev = num(1);
    let curr = Value::Number(Number::Float("1.0".to_string()));
    let e = only_entry(Some(&prev), Some(&curr));
    assert_eq!(e.change, Change::Changed(num(1), Value::Number(Number::Float("1.0".to_string()))));
}

#[test]
fn same_value_gives_nothing() {
    let v = obj(vec![
        ("a", arr(vec![num(1), Value::Null, Value::Bool(true)])),
        ("b", obj(vec![("c", text("x")), ("d", obj(vec![]))])),
        ("e", arr(vec![])),
    ]);
    let r = diff(Some(&v), Some(&v.deep_copy()));
    assert!(r.is_empty());
    assert_eq!(diff(Some(&Value::Null), Some(&Value::Null)).len(), 0);
}

#[test]
fn member_order_does_not_matter() {
    let prev = obj(vec![("a", num(1)), ("b", num(2))]);
    let curr = obj(vec![("b", num(2)), ("a", num(1))]);
    assert!(diff(Some(&prev), Some(&curr)).is_empty());
}

#[test]
fn null_member_that_goes_is_removed() {
    let prev = obj(vec![("a", Value::Null)]);
    let curr = obj(vec![]);
    let e = only_entry(Some(&prev), Some(&curr));
    assert_eq!(e.path, vec![field("a")]);
    assert_eq!(e.change, Change::Removed(Value::Null));
}

#[test]
fn unrelated_member_changes_nothing_else() {
    let prev = obj(vec![("a", num(1)), ("b", num(2))]);
    let curr = obj(vec![("a", num(5)), ("b", num(2))]);
    let prev2 = obj(vec![("a", num(1)), ("b", num(2)), ("z", text("same"))]);
    let curr2 = obj(vec![("a", num(5)), ("b", num(2)), ("z", text("same"))]);
    let r1 = diff(Some(&prev), Some(&curr));
    let r2 = diff(Some(&prev2), Some(&curr2));
    assert_eq!(r1.entries(), r2.entries());
    assert_eq!(r1.len(), 1);
}

#[test]
fn swapped_operands_swap_kinds() {
    let a = obj(vec![("k", num(1)), ("gone", Value::Bool(false)), ("l", arr(vec![num(1), num(2)]))]);
    let b = obj(vec![("k", num(2)), ("l", arr(vec![num(1)])), ("new", Value::Null)]);
    let ab = diff(Some(&a), Some(&b));
    let ba = diff(Some(&b), Some(&a));
    assert_eq!(ab.len(), 4);
    assert_eq!(ba.len(), 4);
    for e in ab.entries() {
        let inverse = match &e.change {
            Change::Added(v) => Change::Removed(v.deep_copy()),
            Change::Removed(v) => Change::Added(v.deep_copy()),
            Change::Changed(x, y) => Change::Changed(y.deep_copy(), x.deep_copy()),
        };
        assert!(ba.entries().iter().any(|f| f.path == e.path && f.change == inverse));
    }
}

#[test]
fn new_members_come_after_old_ones() {
    let prev = obj(vec![("b", num(1)), ("a", num(1))]);
    let curr = obj(vec![("c", num(1)), ("a", num(2))]);
    let r = diff(Some(&prev), Some(&curr));
    assert_eq!(r.len(), 3);
    assert_eq!(r.entries()[0].path, vec![field("b")]);
    assert_eq!(r.entries()[1].path, vec![field("a")]);
    assert_eq!(r.entries()[2].path, vec![field("c")]);
    assert_eq!(r.entries()[2].change, Change::Added(num(1)));
}

#[test]
fn nested_paths_reach_the_change() {
    let prev = obj(vec![("a", obj(vec![("b", arr(vec![num(0), obj(vec![("c", num(1))])]))]))]);
    let curr = obj(vec![("a", obj(vec![("b", arr(vec![num(0), obj(vec![("c", num(2))])]))]))]);
    let e = only_entry(Some(&prev), Some(&curr));
    assert_eq!(e.path, vec![field("a"), field("b"), Segment::Index(1), field("c")]);
    assert_eq!(e.change, Change::Changed(num(1), num(2)));
    assert_eq!(diff(Some(&prev), Some(&curr)).render(), "~ a.b[1].c: 1 -> 2\n");
}

#[test]
fn single_entry_renders_as_one_line() {
    let prev = obj(vec![("status", text("ok")), ("count", num(3))]);
    let curr = obj(vec![("status", text("ok")), ("count", num(4))]);
    assert_eq!(diff(Some(&prev), Some(&curr)).render(), "~ count: 3 -> 4\n");
}

#[test]
fn root_entry_omits_the_path() {
    let curr = obj(vec![("a", num(1)), ("b", arr(vec![Value::Null, Value::Bool(false)]))]);
    assert_eq!(diff(None, Some(&curr)).render(), "+ {\"a\":1,\"b\":[null,false]}\n");
    assert_eq!(diff(Some(&num(-42)), None).render(), "- -42\n");
}

#[test]
fn several_entries_render_one_line_each() {
    let prev = obj(vec![("a", num(1)), ("b", text("x")), ("c", Value::Bool(true))]);
    let curr = obj(vec![("a", num(2)), ("c", Value::Bool(true)), ("d", text("y"))]);
    let out = diff(Some(&prev), Some(&curr)).render();
    assert_eq!(out, "~ a: 1 -> 2\n- b: \"x\"\n+ d: \"y\"\n");
    assert_eq!(out.lines().count(), 3);
}

#[test]
fn strings_are_quoted_and_escaped() {
    let prev = obj(vec![("s", text("say \"hi\"\n"))]);
    let curr = obj(vec![("s", text("bell\u{7}\u{9b}"))]);
    let out = diff(Some(&prev), Some(&curr)).render();
    assert_eq!(out, "~ s: \"say \\\"hi\\\"\\n\" -> \"bell\\u0007\\u{9b}\"\n");
}

#[test]
fn control_characters_in_names_are_escaped() {
    let curr = obj(vec![("x\ny\t", num(1))]);
    let prev = obj(vec![]);
    let out = diff(Some(&prev), Some(&curr)).render();
    assert_eq!(out, "+ x\\u{a}y\\u{9}: 1\n");
    assert_eq!(out.lines().count(), 1);
}

#[test]
fn numbers_render_exactly() {
    let prev = arr(vec![num(i128::from(u64::MAX)), num(i128::from(i64::MIN)), num(0)]);
    let curr = arr(vec![
        Value::Number(Number::Float("1.5".to_string())),
        num(i128::MIN),
        num(-7),
    ]);
    let out = diff(Some(&prev), Some(&curr)).render();
    assert_eq!(
        out,
        "~ [0]: 18446744073709551615 -> 1.5\n\
         ~ [1]: -9223372036854775808 -> -170141183460469231731687303715884105728\n\
         ~ [2]: 0 -> -7\n"
    );
}

#[test]
fn terminal_escape_keeps_layout() {
    assert_eq!(escape_for_terminal("a\u{1b}[31mb\n\tc"), "a\\u{1b}[31mb\n\tc");
    assert_eq!(escape_for_terminal("\u{0}\u{7f}\u{85}é"), "\\u{0}\\u{7f}\\u{85}é");
    assert_eq!(escape_for_terminal(""), "");
    assert_eq!(escape_for_terminal("plain text"), "plain text");
}

#[test]
fn equality_ignores_member_order() {
    let a = obj(vec![("x", arr(vec![num(1), text("t")])), ("y", Value::Null)]);
    let b = obj(vec![("y", Value::Null), ("x", arr(vec![num(1), text("t")]))]);
    assert!(a.equals(&b));
    assert!(b.equals(&a));
    assert!(!a.equals(&obj(vec![("x", arr(vec![num(1)])), ("y", Value::Null)])));
    assert!(!num(1).equals(&Value::Number(Number::Float("1.0".to_string()))));
}

#[test]
fn key_gained_on_one_side_is_one_more_addition() {
    let prev = obj(vec![("a", num(1))]);
    let curr = obj(vec![("a", num(2))]);
    let curr2 = obj(vec![("a", num(2)), ("z", Value::Bool(true))]);
    let r1 = diff(Some(&prev), Some(&curr));
    let r2 = diff(Some(&prev), Some(&curr2));
    assert_eq!(r2.len(), r1.len() + 1);
    assert_eq!(r2.entries()[0], r1.entries()[0]);
    assert_eq!(r2.entries()[1].path, vec![field("z")]);
    assert_eq!(r2.entries()[1].change, Change::Added(Value::Bool(true)));
}

#[test]
fn zero_equals_negative_zero() {
    let zero = Value::Number(Number::Float("0.0".to_string()));
    let negative = Value::Number(Number::Float("-0.0".to_string()));
    assert!(diff(Some(&zero), Some(&negative)).is_empty());
    assert!(zero.equals(&negative));
    let other = Value::Number(Number::Float("0.5".to_string()));
    assert_eq!(diff(Some(&negative), Some(&other)).len(), 1);
}

#[test]
fn string_literals_use_short_escapes() {
    let curr = text("a\u{8}\u{c}\r\t\\/\u{1f}");
    let out = diff(None, Some(&curr)).render();
    assert_eq!(out, "+ \"a\\b\\f\\r\\t\\\\/\\u001f\"\n");
}

#[test]
fn report_puts_one_entry_after_the_stamp() {
    let prev = obj(vec![("count", num(3))]);
    let curr = obj(vec![("count", num(4))]);
    let r = diff(Some(&prev), Some(&curr));
    assert_eq!(r.report(Some("2024-01-01T00:00:00+0000")), "2024-01-01T00:00:00+0000 ~ count: 3 -> 4\n");
    assert_eq!(r.report(None), "~ count: 3 -> 4\n");
}

#[test]
fn report_indents_several_entries() {
    let prev = obj(vec![("a", num(1)), ("b", num(2))]);
    let curr = obj(vec![("a", num(2))]);
    let r = diff(Some(&prev), Some(&curr));
    assert_eq!(r.report(Some("T")), "T\n    ~ a: 1 -> 2\n    - b: 2\n");
    assert_eq!(r.report(None), "    ~ a: 1 -> 2\n    - b: 2\n");
}
