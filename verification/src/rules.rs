//! The rule interface and the rule implementations: named, described units
//! that read the parsed classes and produce findings with logical locations.
use vstd::prelude::*;
use vstd::string::StringExecFns;

use crate::bytestr::str_eq;
use crate::ir::{CallSiteV, Class, ClassV, MethodV};

verus! {

/// Metadata describing an analysis rule.
#[derive(Clone, Copy, Debug)]
pub struct RuleMetadata {
    pub id: &'static str,
    pub name: &'static str,
    pub description: &'static str,
}

/// A logical code location of a finding: `ClassName.methodName(descriptor)`
/// with kind `function`, or a bare class name with kind `type`.
#[derive(Debug)]
pub struct LogicalLocation {
    pub name: String,
    pub kind: String,
}

/// Model of a logical location.
#[verifier::ext_equal]
pub ghost struct LogicalLocationV {
    pub name: Seq<char>,
    pub kind: Seq<char>,
}

impl DeepView for LogicalLocation {
    type V = LogicalLocationV;

    open spec fn deep_view(&self) -> LogicalLocationV {
        LogicalLocationV { name: self.name@, kind: self.kind@ }
    }
}

/// One finding of a rule: a message and the location it points at.
#[derive(Debug)]
pub struct Finding {
    pub message: String,
    pub location: LogicalLocation,
}

/// Model of a finding.
#[verifier::ext_equal]
pub ghost struct FindingV {
    pub message: Seq<char>,
    pub location: LogicalLocationV,
}

impl DeepView for Finding {
    type V = FindingV;

    open spec fn deep_view(&self) -> FindingV {
        FindingV { message: self.message@, location: self.location.deep_view() }
    }
}

/// The analysis context a rule receives: the full set of parsed classes.
pub struct AnalysisContext {
    pub classes: Vec<Class>,
}

/// Rule interface: a named, described unit that reads the analysis context
/// and produces findings.
pub trait Rule {
    fn metadata(&self) -> RuleMetadata;

    fn run(&self, context: &AnalysisContext) -> Vec<Finding>;
}

/// Whether a call to `owner.name` is one of the insecure process or
/// reflection entry points the insecure-API rule flags.
pub open spec fn spec_is_insecure(owner: Seq<char>, name: Seq<char>) -> bool {
    ||| (owner == "java/lang/Runtime"@ && name == "exec"@)
    ||| (owner == "java/lang/ProcessBuilder"@ && name == "<init>"@)
    ||| (owner == "java/lang/ProcessBuilder"@ && name == "start"@)
    ||| (owner == "java/lang/reflect/Method"@ && name == "invoke"@)
    ||| (owner == "java/lang/reflect/Constructor"@ && name == "newInstance"@)
    ||| (owner == "java/lang/Class"@ && name == "forName"@)
}

/// Decide whether a call to `owner.name` is an insecure API use.
pub fn is_insecure_call(owner: &str, name: &str) -> (r: bool)
    ensures
        r == spec_is_insecure(owner@, name@),
{
    (str_eq(owner, "java/lang/Runtime") && str_eq(name, "exec")) || (str_eq(
        owner,
        "java/lang/ProcessBuilder",
    ) && (str_eq(name, "<init>") || str_eq(name, "start"))) || (str_eq(
        owner,
        "java/lang/reflect/Method",
    ) && str_eq(name, "invoke")) || (str_eq(owner, "java/lang/reflect/Constructor") && str_eq(
        name,
        "newInstance",
    )) || (str_eq(owner, "java/lang/Class") && str_eq(name, "forName"))
}

/// The message the insecure-API rule attaches to a flagged call.
pub open spec fn spec_insecure_message(owner: Seq<char>, name: Seq<char>) -> Seq<char> {
    "Insecure API usage: "@ + owner + "."@ + name
}

/// The logical location of a method: `ClassName.methodName(descriptor)`,
/// kind `function`.
pub open spec fn spec_method_location(
    class_name: Seq<char>,
    method_name: Seq<char>,
    descriptor: Seq<char>,
) -> LogicalLocationV {
    LogicalLocationV { name: class_name + "."@ + method_name + descriptor, kind: "function"@ }
}

/// The logical location of a class: its name, kind `type`.
pub open spec fn spec_class_location(class_name: Seq<char>) -> LogicalLocationV {
    LogicalLocationV { name: class_name, kind: "type"@ }
}

/// Build the logical location of a method.
pub fn method_logical_location(class_name: &str, method_name: &str, descriptor: &str) -> (r:
    LogicalLocation)
    ensures
        r.deep_view() == spec_method_location(class_name@, method_name@, descriptor@),
{
    let mut name = String::from_str(class_name);
    name.append(".");
    name.append(method_name);
    name.append(descriptor);
    let kind = String::from_str("function");
    LogicalLocation { name: name, kind: kind }
}

/// Build the logical location of a class.
pub fn class_location(class_name: &str) -> (r: LogicalLocation)
    ensures
        r.deep_view() == spec_class_location(class_name@),
{
    LogicalLocation { name: String::from_str(class_name), kind: String::from_str("type") }
}

/// Build the message for one flagged call.
fn insecure_message(owner: &str, name: &str) -> (r: String)
    ensures
        r@ == spec_insecure_message(owner@, name@),
{
    let mut s = String::from_str("Insecure API usage: ");
    s.append(owner);
    s.append(".");
    s.append(name);
    s
}

/// The findings one call contributes: one finding at the enclosing method
/// when the call is insecure, none otherwise.
pub open spec fn spec_call_findings(class_name: Seq<char>, m: MethodV, c: CallSiteV) -> Seq<
    FindingV,
> {
    if spec_is_insecure(c.owner, c.name) {
        seq![
            FindingV {
                message: spec_insecure_message(c.owner, c.name),
                location: spec_method_location(class_name, m.name, m.descriptor),
            },
        ]
    } else {
        Seq::empty()
    }
}

/// The findings of a method's first `n` calls, in call order.
pub open spec fn spec_method_findings_upto(class_name: Seq<char>, m: MethodV, n: int) -> Seq<
    FindingV,
>
    decreases n,
{
    if n <= 0 {
        Seq::empty()
    } else {
        spec_method_findings_upto(class_name, m, n - 1) + spec_call_findings(
            class_name,
            m,
            m.calls[n - 1],
        )
    }
}

/// The findings of a class's first `n` methods, in method then call order.
pub open spec fn spec_class_findings_upto(c: ClassV, n: int) -> Seq<FindingV>
    decreases n,
{
    if n <= 0 {
        Seq::empty()
    } else {
        spec_class_findings_upto(c, n - 1) + spec_method_findings_upto(
            c.name,
            c.methods[n - 1],
            c.methods[n - 1].calls.len() as int,
        )
    }
}

/// The findings of the first `n` classes, in class, method, call order.
pub open spec fn spec_findings_upto(cs: Seq<ClassV>, n: int) -> Seq<FindingV>
    decreases n,
{
    if n <= 0 {
        Seq::empty()
    } else {
        spec_findings_upto(cs, n - 1) + spec_class_findings_upto(
            cs[n - 1],
            cs[n - 1].methods.len() as int,
        )
    }
}

/// All findings of the insecure-API rule over the parsed classes: one
/// finding per insecure call, in class, method, call order.
pub open spec fn spec_insecure_findings(cs: Seq<ClassV>) -> Seq<FindingV> {
    spec_findings_upto(cs, cs.len() as int)
}

/// Scan every call of every method of every class and flag the insecure
/// API uses, in deterministic class, method, call order.
pub fn insecure_api_findings(context: &AnalysisContext) -> (r: Vec<Finding>)
    ensures
        r.deep_view() == spec_insecure_findings(context.classes.deep_view()),
{
    let ghost cs = context.classes.deep_view();
    let mut out: Vec<Finding> = Vec::new();
    let mut ci: usize = 0;
    while ci < context.classes.len()
        invariant
            ci <= cs.len(),
            cs == context.classes.deep_view(),
            out.deep_view() == spec_findings_upto(cs, ci as int),
        decreases cs.len() - ci,
    {
        let class = &context.classes[ci];
        let ghost cv = cs[ci as int];
        let ghost base_c = out.deep_view();
        let mut mi: usize = 0;
        while mi < class.methods.len()
            invariant
                mi <= cv.methods.len(),
                cv == cs[ci as int],
                ci < cs.len(),
                cv == context.classes@[ci as int].deep_view(),
                cs == context.classes.deep_view(),
                out.deep_view() == base_c + spec_class_findings_upto(cv, mi as int),
            decreases cv.methods.len() - mi,
        {
            let method = &class.methods[mi];
            let ghost mv = cv.methods[mi as int];
            let ghost base_m = out.deep_view();
            let mut ki: usize = 0;
            while ki < method.calls.len()
                invariant
                    ki <= mv.calls.len(),
                    mv == cv.methods[mi as int],
                    mi < cv.methods.len(),
                    ci < cs.len(),
                    cv == context.classes@[ci as int].deep_view(),
                    mv == context.classes@[ci as int].methods@[mi as int].deep_view(),
                    cs == context.classes.deep_view(),
                    out.deep_view() == base_m + spec_method_findings_upto(cv.name, mv, ki as int),
                decreases mv.calls.len() - ki,
            {
                let call = &method.calls[ki];
                let ghost pre = out.deep_view();
                proof {
                    assert(call.deep_view() == mv.calls[ki as int]);
                }
                if is_insecure_call(call.owner.as_str(), call.name.as_str()) {
                    let message = insecure_message(call.owner.as_str(), call.name.as_str());
                    let location = method_logical_location(
                        class.name.as_str(),
                        method.name.as_str(),
                        method.descriptor.as_str(),
                    );
                    out.push(Finding { message: message, location: location });
                    proof {
                        assert(out.deep_view() =~= pre + spec_call_findings(
                            cv.name,
                            mv,
                            mv.calls[ki as int],
                        ));
                    }
                } else {
                    proof {
                        assert(out.deep_view() =~= pre + spec_call_findings(
                            cv.name,
                            mv,
                            mv.calls[ki as int],
                        ));
                    }
                }
                ki = ki + 1;
            }
            mi = mi + 1;
        }
        ci = ci + 1;
    }
    out
}

/// Produce no findings; the placeholder body of the nullness rule until
/// annotations are indexed.
pub fn nullness_findings(context: &AnalysisContext) -> (r: Vec<Finding>)
    ensures
        r.deep_view() == Seq::<FindingV>::empty(),
{
    let r: Vec<Finding> = Vec::new();
    proof {
        assert(r.deep_view() =~= Seq::<FindingV>::empty());
    }
    r
}

/// Rule that detects insecure API usage.
pub struct InsecureApiRule;

impl Rule for InsecureApiRule {
    fn metadata(&self) -> RuleMetadata {
        RuleMetadata {
            id: "INSECURE_API",
            name: "Insecure API usage",
            description: "Calls to insecure process or reflection APIs",
        }
    }

    fn run(&self, context: &AnalysisContext) -> Vec<Finding> {
        insecure_api_findings(context)
    }
}

/// Rule that will enforce JSpecify-guided nullness checks.
pub struct NullnessRule;

impl Rule for NullnessRule {
    fn metadata(&self) -> RuleMetadata {
        RuleMetadata {
            id: "NULLNESS",
            name: "Nullness checks",
            description: "Nullness issues guided by JSpecify annotations",
        }
    }

    fn run(&self, context: &AnalysisContext) -> Vec<Finding> {
        nullness_findings(context)
    }
}

} // verus!
