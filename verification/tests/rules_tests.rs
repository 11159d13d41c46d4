use rustrospective::ir::{CallKind, CallSite, Class, ControlFlowGraph, Method, MethodAccess};
use rustrospective::rules::{class_location, insecure_api_findings, is_insecure_call,
    method_logical_location, AnalysisContext, InsecureApiRule, NullnessRule, Rule};

fn empty_cfg() -> ControlFlowGraph {
    ControlFlowGraph { blocks: Vec::new(), edges: Vec::new() }
}

fn method_with(name: &str, calls: Vec<CallSite>) -> Method {
    Method {
        name: name.to_string(),
        descriptor: "()V".to_string(),
        access: MethodAccess { is_public: true, is_static: false, is_abstract: false },
        bytecode: vec![0],
        cfg: empty_cfg(),
        calls,
        string_literals: Vec::new(),
        exception_handlers: Vec::new(),
    }
}

fn class_with_methods(name: &str, methods: Vec<Method>) -> Class {
    Class {
        name: name.to_string(),
        super_name: None,
        referenced_classes: Vec::new(),
        methods,
        artifact_index: 0,
    }
}

fn context_for(classes: Vec<Class>) -> AnalysisContext {
    AnalysisContext { classes }
}

#[test]
fn insecure_api_rule_reports_matches() {
    let method = method_with(
        "run",
        vec![CallSite {
            owner: "java/lang/Runtime".to_string(),
            name: "exec".to_string(),
            descriptor: "(Ljava/lang/String;)V".to_string(),
            kind: CallKind::Virtual,
            offset: 0,
        }],
    );
    let classes = vec![class_with_methods("com/example/App", vec![method])];
    let context = context_for(classes);

    let results = InsecureApiRule.run(&context);

    assert_eq!(1, results.len());
    let message = results[0].message.as_str();
    assert!(message.contains("Insecure API usage: java/lang/Runtime.exec"));
}

#[test]
fn insecure_api_rule_ignores_safe_calls() {
    let method = method_with(
        "run",
        vec![CallSite {
            owner: "java/lang/String".to_string(),
            name: "length".to_string(),
            descriptor: "()I".to_string(),
            kind: CallKind::Virtual,
            offset: 0,
        }],
    );
    let classes = vec![class_with_methods("com/example/App", vec![method])];
    let context = context_for(classes);

    let results = InsecureApiRule.run(&context);

    assert!(results.is_empty());
}

#[test]
fn is_insecure_call_matches_the_known_entries() {
    assert!(is_insecure_call("java/lang/Runtime", "exec"));
    assert!(is_insecure_call("java/lang/ProcessBuilder", "<init>"));
    assert!(is_insecure_call("java/lang/ProcessBuilder", "start"));
    assert!(is_insecure_call("java/lang/reflect/Method", "invoke"));
    assert!(is_insecure_call("java/lang/reflect/Constructor", "newInstance"));
    assert!(is_insecure_call("java/lang/Class", "forName"));
    assert!(!is_insecure_call("java/lang/Runtime", "gc"));
    assert!(!is_insecure_call("java/lang/String", "exec"));
}

#[test]
fn finding_location_names_the_method() {
    let method = method_with(
        "run",
        vec![CallSite {
            owner: "java/lang/Class".to_string(),
            name: "forName".to_string(),
            descriptor: "(Ljava/lang/String;)Ljava/lang/Class;".to_string(),
            kind: CallKind::Static,
            offset: 7,
        }],
    );
    let classes = vec![class_with_methods("com/example/App", vec![method])];
    let findings = insecure_api_findings(&context_for(classes));
    assert_eq!(findings.len(), 1);
    assert_eq!(findings[0].location.name, "com/example/App.run()V");
    assert_eq!(findings[0].location.kind, "function");
    assert_eq!(findings[0].message, "Insecure API usage: java/lang/Class.forName");
}

#[test]
fn logical_locations_have_the_expected_shape() {
    let loc = method_logical_location("com/example/App", "main", "([Ljava/lang/String;)V");
    assert_eq!(loc.name, "com/example/App.main([Ljava/lang/String;)V");
    assert_eq!(loc.kind, "function");
    let cloc = class_location("com/example/App");
    assert_eq!(cloc.name, "com/example/App");
    assert_eq!(cloc.kind, "type");
}

#[test]
fn nullness_rule_reports_nothing_yet() {
    let classes = vec![class_with_methods("com/example/App", vec![method_with("run", vec![])])];
    let results = NullnessRule.run(&context_for(classes));
    assert!(results.is_empty());
}

#[test]
fn rule_metadata_is_stable() {
    assert_eq!(InsecureApiRule.metadata().id, "INSECURE_API");
    assert_eq!(NullnessRule.metadata().id, "NULLNESS");
}
