use std::rc::Rc;
use yash_syntax::alias::Alias;
use yash_syntax::alias::AliasSet;
use yash_syntax::env::AliasEnv;
use yash_syntax::env::LocalEnv;
use yash_syntax::env::NativeEnv;
use yash_syntax::expansion::Field;
use yash_syntax::source::source_chars;
use yash_syntax::source::Code;
use yash_syntax::source::Location;
use yash_syntax::source::Source;
use yash_syntax::subshell::JobControl;
use yash_syntax::subshell::Subshell;

fn alias(name: &str, replacement: &str, global: bool) -> Rc<Alias> {
    Rc::new(Alias {
        name: name.to_string(),
        replacement: replacement.to_string(),
        global,
        origin: Location::dummy(""),
    })
}

#[test]
fn is_alias_for_unknown_source() {
    assert_eq!(Source::Unknown.is_alias_for("foo"), false);
}

#[test]
fn is_alias_for_matching_name() {
    let original = Location::dummy("");
    let source = Source::Alias { original, alias: alias("foo", "", false) };
    assert_eq!(source.is_alias_for("foo"), true);
    assert_eq!(source.is_alias_for("bar"), false);
}

#[test]
fn is_alias_for_checks_originals_recursively() {
    let inner = Source::Alias { original: Location::dummy(""), alias: alias("foo", "", false) };
    let code = Rc::new(Code { value: "x".to_string(), start_line_number: 1, source: inner });
    let original = Location { code, range: 0..1 };
    let source = Source::Alias { original, alias: alias("bar", "", false) };
    assert_eq!(source.is_alias_for("foo"), true);
    assert_eq!(source.is_alias_for("bar"), true);
    assert_eq!(source.is_alias_for("baz"), false);
}

#[test]
fn source_labels() {
    assert_eq!(Source::Unknown.label(), "<?>");
    assert_eq!(Source::Stdin.label(), "<stdin>");
    let trap = Source::Trap { condition: "INT".to_string(), origin: Location::dummy("") };
    assert_eq!(trap.label(), "INT");
    assert_eq!(Source::Arith { original: Location::dummy("") }.label(), "<arith>");
}

#[test]
fn source_chars_numbers_from_offset() {
    let s = "abc";
    let code = Rc::new(Code { value: s.to_string(), start_line_number: 1, source: Source::Unknown });
    let chars = source_chars(s, &code, 10);
    assert_eq!(chars.len(), 3);
    assert_eq!(chars[0].value, 'a');
    assert_eq!(chars[0].location.code, code);
    assert_eq!(chars[0].location.range, 10..11);
    assert_eq!(chars[1].value, 'b');
    assert_eq!(chars[1].location.code, code);
    assert_eq!(chars[1].location.range, 11..12);
}

#[test]
fn location_dummy_spans_whole_value() {
    let location = Location::dummy("héllo");
    assert_eq!(location.range, 0..5);
    assert_eq!(location.code.start_line_number, 1);
    assert_eq!(location.code.source, Source::Unknown);
    assert_eq!(location.column(), 1);
}

#[test]
fn location_lines_and_columns() {
    let code = Rc::new(Code { value: "ab\ncd\nef".to_string(), start_line_number: 7, source: Source::Stdin });
    let location = Location { code, range: 4..5 };
    assert_eq!(location.line_value(), "cd\n");
    assert_eq!(location.line_number(), 8);
    assert_eq!(location.column(), 2);
}

#[test]
fn alias_set_insert_get_remove() {
    let mut set = AliasSet::new();
    assert_eq!(set.get("foo"), None);
    assert_eq!(set.insert(alias("foo", "echo", false)), None);
    assert_eq!(set.get("foo").unwrap().replacement, "echo");
    let previous = set.insert(alias("foo", "ls", true)).unwrap();
    assert_eq!(previous.replacement, "echo");
    assert_eq!(set.get("foo").unwrap().replacement, "ls");
    assert_eq!(set.get("bar"), None);
    assert_eq!(set.remove("foo").unwrap().replacement, "ls");
    assert_eq!(set.get("foo"), None);
    assert_eq!(set.remove("foo"), None);
}

#[test]
fn new_environments_have_no_aliases() {
    let env = LocalEnv::new();
    assert_eq!(env.aliases().get("foo"), None);
    let native = NativeEnv::new();
    assert_eq!(native.aliases().get("ls"), None);
}

#[test]
fn field_dummies_keep_order() {
    let fields = Field::dummies(&vec!["a", "bc"]);
    assert_eq!(fields.len(), 2);
    assert_eq!(fields[0].value, "a");
    assert_eq!(fields[1].value, "bc");
    assert_eq!(fields[1].origin.code.value, "bc");
    assert_eq!(Field::dummy("x").origin.range, 0..1);
}

#[test]
fn subshell_builder_records_job_control() {
    let subshell = Subshell::new(42u8);
    assert_eq!(subshell.get_job_control(), None);
    let subshell = subshell.job_control(Some(JobControl::Foreground));
    assert_eq!(subshell.get_job_control(), Some(JobControl::Foreground));
    assert_eq!(subshell.into_task(), 42);
}
