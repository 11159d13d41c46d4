use rustrospective::classinfo::{normalize_class_name, parse_class_bytes, ClassParseError};
use rustrospective::classpath::{expand_absorb, expand_classpath, expand_next, is_jar_path,
    jar_entry_uri, parse_manifest_classpath, path_key, path_to_uri};

#[test]
fn path_key_and_uri_are_the_path_itself() {
    assert_eq!(path_key(b"/tmp/a.jar"), b"/tmp/a.jar");
    assert_eq!(path_to_uri(b"/tmp/a.jar"), b"/tmp/a.jar");
}

#[test]
fn jar_entry_uri_has_the_jar_scheme_shape() {
    let uri = jar_entry_uri(b"/tmp/a.jar", b"com/example/App.class");
    assert_eq!(uri, b"jar:/tmp/a.jar!/com/example/App.class");
}

#[test]
fn jar_paths_are_recognised_case_insensitively() {
    assert!(is_jar_path(b"a.jar"));
    assert!(is_jar_path(b"/tmp/lib/A.JAR"));
    assert!(is_jar_path(b"dir.d/b.Jar"));
    assert!(!is_jar_path(b"a.jam"));
    assert!(!is_jar_path(b"ajar"));
    assert!(!is_jar_path(b".jar"));
    assert!(!is_jar_path(b"dir/.jar"));
    assert!(!is_jar_path(b"dir.jar/file"));
    assert!(!is_jar_path(b"a.jarx"));
}

#[test]
fn manifest_classpath_resolves_relative_entries() {
    let content = b"Manifest-Version: 1.0\r\nClass-Path: dep.jar lib/other.jar\r\n\r\n";
    let entries = parse_manifest_classpath(b"/tmp/main.jar", content);
    assert_eq!(entries.len(), 2);
    assert_eq!(entries[0], b"/tmp/dep.jar");
    assert_eq!(entries[1], b"/tmp/lib/other.jar");
}

#[test]
fn manifest_classpath_keeps_absolute_entries() {
    let content = b"Class-Path: /opt/lib/x.jar\n";
    let entries = parse_manifest_classpath(b"main.jar", content);
    assert_eq!(entries.len(), 1);
    assert_eq!(entries[0], b"/opt/lib/x.jar");
}

#[test]
fn manifest_classpath_joins_continuation_lines() {
    // a value wrapped over a continuation line is glued back together
    let content = b"Class-Path: dep\n .jar\n";
    let entries = parse_manifest_classpath(b"/base/main.jar", content);
    assert_eq!(entries.len(), 1);
    assert_eq!(entries[0], b"/base/dep.jar");
}

#[test]
fn manifest_without_classpath_gives_nothing() {
    let content = b"Manifest-Version: 1.0\nMain-Class: com.example.App\n";
    let entries = parse_manifest_classpath(b"main.jar", content);
    assert!(entries.is_empty());
}

#[test]
fn manifest_classpath_of_sibling_jar_without_directory() {
    let content = b"Class-Path: dep.jar\n";
    let entries = parse_manifest_classpath(b"main.jar", content);
    assert_eq!(entries.len(), 1);
    assert_eq!(entries[0], b"dep.jar");
}

#[test]
fn expansion_dedupes_and_keeps_first_seen_order() {
    let initial: Vec<Vec<u8>> = vec![b"b.jar".to_vec(), b"a.jar".to_vec(), b"a.jar".to_vec()];
    let mut st = expand_classpath(initial);

    let first = expand_next(&mut st).expect("first entry");
    assert_eq!(first, b"a.jar");
    // a.jar's manifest references c.jar and a.jar again
    expand_absorb(&mut st, vec![b"c.jar".to_vec(), b"a.jar".to_vec()]);

    let second = expand_next(&mut st).expect("second entry");
    assert_eq!(second, b"b.jar");
    let third = expand_next(&mut st).expect("third entry");
    assert_eq!(third, b"c.jar");
    assert!(expand_next(&mut st).is_none());

    assert_eq!(st.result, vec![b"a.jar".to_vec(), b"b.jar".to_vec(), b"c.jar".to_vec()]);
}

#[test]
fn normalize_keeps_plain_names() {
    assert_eq!(normalize_class_name("java/lang/String"), Some("java/lang/String".to_string()));
    assert_eq!(normalize_class_name(""), Some(String::new()));
}

#[test]
fn normalize_unwraps_object_arrays() {
    assert_eq!(
        normalize_class_name("[Ljava/lang/String;"),
        Some("java/lang/String".to_string()),
    );
    assert_eq!(normalize_class_name("[[Lcom/example/App;"), Some("com/example/App".to_string()));
}

#[test]
fn normalize_drops_primitive_arrays() {
    assert_eq!(normalize_class_name("[I"), None);
    assert_eq!(normalize_class_name("[[J"), None);
    assert_eq!(normalize_class_name("["), None);
}

fn push_u16(out: &mut Vec<u8>, v: u16) {
    out.push((v >> 8) as u8);
    out.push((v & 0xff) as u8);
}

fn push_utf8(out: &mut Vec<u8>, s: &str) {
    out.push(1);
    push_u16(out, s.len() as u16);
    out.extend_from_slice(s.as_bytes());
}

fn push_class(out: &mut Vec<u8>, name_index: u16) {
    out.push(7);
    push_u16(out, name_index);
}

fn minimal_class_file() -> Vec<u8> {
    let mut out = vec![0xcau8, 0xfe, 0xba, 0xbe];
    push_u16(&mut out, 0); // minor version
    push_u16(&mut out, 52); // major version
    push_u16(&mut out, 7); // constant pool count (slot 0 implicit)
    push_utf8(&mut out, "com/example/Foo"); // #1
    push_class(&mut out, 1); // #2
    push_utf8(&mut out, "com/example/Bar"); // #3
    push_class(&mut out, 3); // #4
    push_utf8(&mut out, "java/lang/Object"); // #5
    push_class(&mut out, 5); // #6
    push_u16(&mut out, 0x0021); // access flags
    push_u16(&mut out, 2); // this class
    push_u16(&mut out, 6); // super class
    push_u16(&mut out, 0); // interfaces
    push_u16(&mut out, 0); // fields
    push_u16(&mut out, 0); // methods
    push_u16(&mut out, 0); // attributes
    out
}

#[test]
fn class_reader_extracts_name_and_sorted_references() {
    let parsed = parse_class_bytes(&minimal_class_file()).expect("parse class");
    assert_eq!(parsed.name, "com/example/Foo");
    assert_eq!(
        parsed.referenced_classes,
        vec!["com/example/Bar".to_string(), "java/lang/Object".to_string()],
    );
}

#[test]
fn class_reader_rejects_garbage() {
    let r = parse_class_bytes(b"nope");
    assert_eq!(r.unwrap_err(), ClassParseError::UnparsableClassFile);
}

#[test]
fn class_reader_rejects_unresolvable_name() {
    // same class file, but this_class points at a Utf8 slot instead of a
    // Class slot, so the class's own name cannot be resolved
    let mut bytes = minimal_class_file();
    let this_class_at = bytes.len() - 12;
    bytes[this_class_at] = 0;
    bytes[this_class_at + 1] = 1;
    let r = parse_class_bytes(&bytes);
    assert_eq!(r.unwrap_err(), ClassParseError::UnresolvableName);
}

#[test]
fn parse_errors_carry_a_description() {
    assert_eq!(
        ClassParseError::UnparsableClassFile.message(),
        "failed to parse class file bytes",
    );
    assert_eq!(
        ClassParseError::UnresolvableName.message(),
        "unresolvable class name in constant pool",
    );
}
