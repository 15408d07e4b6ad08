//! How the webhook answers an admission review of a pod: the hierarchical merge of
//! sysctls, and the decision to leave the pod alone or patch it.
use vstd::prelude::*;
use vstd::seq_lib::*;
use vstd::string::StringExecFns;
use crate::json::{SysctlsParseError, json_string_map, parse_sysctl_map};
use crate::string_map::{
    EntryView, StringMap, entries_view, fold_pairs, listing_map, sorted_listing, strictly_ascending,
    distinct_keys, lemma_fold_ascending, lemma_fold_distinct, lemma_fold_pairs_finite,
    lemma_fold_last_wins,
    lemma_listing_map_reordered, lemma_sorted_listing_exists,
};

verus! {

/// The namespace annotation that holds a namespace's sysctls, as a JSON object.
pub const SYSCTLS_ANNOTATION: &'static str = "sysctl-mutator.gromware.com/sysctls";

/// A kernel parameter and the value to set it to.
#[derive(Debug)]
pub struct Sysctl {
    pub name: String,
    pub value: String,
}

impl View for Sysctl {
    type V = EntryView;

    open spec fn view(&self) -> EntryView {
        (self.name@, self.value@)
    }
}

impl Clone for Sysctl {
    fn clone(&self) -> (c: Sysctl)
        ensures
            c@ == self@,
    {
        Sysctl { name: self.name.clone(), value: self.value.clone() }
    }
}

/// A list of sysctls, taken as plain values.
pub open spec fn sysctl_entries(v: Seq<Sysctl>) -> Seq<EntryView> {
    v.map_values(|s: Sysctl| s@)
}

/// The part of a pod's security context that the webhook reads and writes.
pub struct PodSecurityContext {
    pub sysctls: Option<Vec<Sysctl>>,
}

/// The part of a pod's spec that the webhook reads.
pub struct PodSpec {
    pub host_network: Option<bool>,
    pub host_ipc: Option<bool>,
    pub security_context: Option<PodSecurityContext>,
}

/// The part of a pod that the webhook reads.
pub struct Pod {
    pub spec: Option<PodSpec>,
}

/// The part of a namespace that the webhook reads: its annotations.
pub struct Namespace {
    pub annotations: Option<StringMap>,
}

impl Pod {
    /// The sysctls that the pod itself sets, in the order it lists them.
    pub open spec fn sysctl_list(self) -> Seq<EntryView> {
        match self.spec {
            Some(spec) => match spec.security_context {
                Some(sc) => match sc.sysctls {
                    Some(v) => sysctl_entries(v@),
                    None => Seq::empty(),
                },
                None => Seq::empty(),
            },
            None => Seq::empty(),
        }
    }

    /// The pod shares the host's network or IPC namespace.
    pub open spec fn shares_host_namespaces(self) -> bool {
        match self.spec {
            Some(spec) => spec.host_network == Some(true) || spec.host_ipc == Some(true),
            None => false,
        }
    }

    /// The pod's spec has a security context.
    pub open spec fn has_security_context(self) -> bool {
        match self.spec {
            Some(spec) => spec.security_context is Some,
            None => false,
        }
    }

    /// The pod's security context has a list of sysctls.
    pub open spec fn has_sysctl_list(self) -> bool {
        match self.spec {
            Some(spec) => match spec.security_context {
                Some(sc) => sc.sysctls is Some,
                None => false,
            },
            None => false,
        }
    }
}

/// The sysctls that a namespace's annotation sets: none where there is no namespace, no
/// annotation, or an annotation that is not a JSON object of string values.
pub open spec fn namespace_sysctls(ns: Option<&Namespace>) -> Map<Seq<char>, Seq<char>> {
    match ns {
        Some(n) => match n.annotations {
            Some(a) => if a@.contains_key(SYSCTLS_ANNOTATION@) {
                match json_string_map(a@[SYSCTLS_ANNOTATION@]) {
                    Some(p) => fold_pairs(p),
                    None => Map::empty(),
                }
            } else {
                Map::empty()
            },
            None => Map::empty(),
        },
        None => Map::empty(),
    }
}

/// The merged sysctls: the defaults, overridden by the namespace's, overridden by the pod's
/// own (of two entries of the pod with the same name, the later one).
pub open spec fn merged_sysctl_map(
    pod: Pod,
    ns: Option<&Namespace>,
    defaults: Map<Seq<char>, Seq<char>>,
) -> Map<Seq<char>, Seq<char>> {
    defaults.union_prefer_right(namespace_sysctls(ns)).union_prefer_right(fold_pairs(pod.sysctl_list()))
}

/// The pod does not already hold exactly the merged sysctls, each once, in some order.
pub open spec fn needs_mutation(
    pod: Pod,
    ns: Option<&Namespace>,
    defaults: Map<Seq<char>, Seq<char>>,
) -> bool {
    pod.sysctl_list().to_multiset() != sorted_listing(merged_sysctl_map(pod, ns, defaults)).to_multiset()
}

/// The sysctls that the pod sets, as a map.
fn pod_sysctl_map(pod: &Pod) -> (r: StringMap)
    ensures
        r@ == fold_pairs(pod.sysctl_list()),
{
    let mut r = StringMap::new();
    if let Some(spec) = &pod.spec {
        if let Some(sc) = &spec.security_context {
            if let Some(sysctls) = &sc.sysctls {
                let ghost sv = sysctl_entries(sysctls@);
                let mut i: usize = 0;
                assert(sv.take(0) =~= Seq::<EntryView>::empty());
                while i < sysctls.len()
                    invariant
                        i <= sysctls@.len(),
                        sv == sysctl_entries(sysctls@),
                        r@ == fold_pairs(sv.take(i as int)),
                    decreases sysctls@.len() - i,
                {
                    r.insert(sysctls[i].name.clone(), sysctls[i].value.clone());
                    assert(sv.take(i as int + 1).drop_last() =~= sv.take(i as int));
                    i = i + 1;
                }
                assert(sv.take(i as int) =~= sv);
                return r;
            }
        }
    }
    assert(pod.sysctl_list() =~= Seq::<EntryView>::empty());
    r
}

/// The namespace carries the sysctls annotation, but its value is not a JSON object of
/// string values.
pub open spec fn annotation_unreadable(ns: Option<&Namespace>) -> bool {
    match ns {
        Some(n) => match n.annotations {
            Some(a) => a@.contains_key(SYSCTLS_ANNOTATION@) && json_string_map(
                a@[SYSCTLS_ANNOTATION@],
            ) is None,
            None => false,
        },
        None => false,
    }
}

/// The sysctls that the namespace's annotation sets, and, where the annotation is there but
/// cannot be read, why.
pub fn read_namespace_sysctls(ns_opt: Option<&Namespace>) -> (r: (StringMap, Option<SysctlsParseError>))
    ensures
        r.0@ == namespace_sysctls(ns_opt),
        r.1 is Some <==> annotation_unreadable(ns_opt),
        match ns_opt {
            Some(n) => match n.annotations {
                Some(a) => {
                    &&& a@.contains_key(SYSCTLS_ANNOTATION@) && json_string_map(
                        a@[SYSCTLS_ANNOTATION@],
                    ) is Some ==> r.0@ == fold_pairs(json_string_map(a@[SYSCTLS_ANNOTATION@])->0)
                        && r.1 is None
                    &&& !a@.contains_key(SYSCTLS_ANNOTATION@) ==> r.0@.dom().len() == 0 && r.1 is None
                },
                None => r.0@.dom().len() == 0 && r.1 is None,
            },
            None => r.0@.dom().len() == 0 && r.1 is None,
        },
{
    if let Some(ns) = ns_opt {
        if let Some(annotations) = &ns.annotations {
            if let Some(ann_val) = annotations.get(SYSCTLS_ANNOTATION) {
                match parse_sysctl_map(ann_val.as_str()) {
                    Ok(ns_sysctls) => {
                        return (ns_sysctls, None);
                    },
                    Err(e) => {
                        return (StringMap::new(), Some(e));
                    },
                }
            }
        }
    }
    (StringMap::new(), None)
}

/// Hierarchically merges the default, namespace-level and pod-level sysctls, and lists the
/// result in ascending name order, each name once.
pub fn calculate_merged_sysctls(
    pod: &Pod,
    ns_opt: Option<&Namespace>,
    default_sysctls: &StringMap,
) -> (r: Vec<Sysctl>)
    ensures
        sysctl_entries(r@) == sorted_listing(merged_sysctl_map(*pod, ns_opt, default_sysctls@)),
        strictly_ascending(sysctl_entries(r@)),
        listing_map(sysctl_entries(r@)) == merged_sysctl_map(*pod, ns_opt, default_sysctls@),
        match pod.spec {
            Some(s) => match s.security_context {
                Some(c) => match c.sysctls {
                    Some(v) => {
                        &&& forall|i: int|
                            0 <= i < v@.len() ==> #[trigger] listing_map(sysctl_entries(r@)).contains_key(
                                v@[i].name@,
                            )
                        &&& forall|i: int|
                            0 <= i < v@.len() && (forall|j: int| i < j < v@.len() ==> v@[j].name@ != v@[i].name@)
                                ==> #[trigger] listing_map(sysctl_entries(r@))[v@[i].name@] == v@[i].value@
                    },
                    None => true,
                },
                None => true,
            },
            None => true,
        },
{
    let r = merge_and_report(pod, ns_opt, default_sysctls).0;
    proof {
        if let Some(s) = &pod.spec {
            if let Some(c) = &s.security_context {
                if let Some(v) = &c.sysctls {
                    assert forall|i: int| 0 <= i < v@.len() implies #[trigger] listing_map(
                        sysctl_entries(r@),
                    ).contains_key(v@[i].name@) by {
                        lemma_pod_sysctls_in_merge(*pod, ns_opt, default_sysctls@, v@, i);
                    }
                    assert forall|i: int|
                        0 <= i < v@.len() && (forall|j: int| i < j < v@.len() ==> v@[j].name@ != v@[i].name@)
                            implies #[trigger] listing_map(sysctl_entries(r@))[v@[i].name@] == v@[i].value@ by {
                        lemma_pod_sysctls_in_merge(*pod, ns_opt, default_sysctls@, v@, i);
                    }
                }
            }
        }
    }
    r
}

/// The merge of `calculate_merged_sysctls`, with the reason the namespace's annotation could
/// not be read, where it could not.
fn merge_and_report(
    pod: &Pod,
    ns_opt: Option<&Namespace>,
    default_sysctls: &StringMap,
) -> (r: (Vec<Sysctl>, Option<SysctlsParseError>))
    ensures
        sysctl_entries(r.0@) == sorted_listing(merged_sysctl_map(*pod, ns_opt, default_sysctls@)),
        strictly_ascending(sysctl_entries(r.0@)),
        listing_map(sysctl_entries(r.0@)) == merged_sysctl_map(*pod, ns_opt, default_sysctls@),
        r.1 is Some <==> annotation_unreadable(ns_opt),
{
    let mut merged = default_sysctls.clone();
    // 1. Namespace overrides defaults
    let (ns_sysctls, annotation_error) = read_namespace_sysctls(ns_opt);
    merged.extend(&ns_sysctls);
    // 2. Pod overrides both
    let pod_sysctls = pod_sysctl_map(pod);
    merged.extend(&pod_sysctls);
    let ghost m = merged@;
    let entries = merged.into_entries();
    let ghost ev = entries_view(entries@);
    let mut target: Vec<Sysctl> = Vec::new();
    let mut i: usize = 0;
    while i < entries.len()
        invariant
            i <= entries@.len(),
            ev == entries_view(entries@),
            target@.len() == i,
            sysctl_entries(target@) == ev.take(i as int),
        decreases entries@.len() - i,
    {
        let ghost before = target@;
        target.push(Sysctl { name: entries[i].0.clone(), value: entries[i].1.clone() });
        proof {
            assert forall|k: int| 0 <= k <= i implies #[trigger] sysctl_entries(target@)[k] == ev.take(
                i as int + 1,
            )[k] by {
                if k < i {
                    assert(sysctl_entries(before)[k] == ev.take(i as int)[k]);
                }
            }
            assert(sysctl_entries(target@) =~= ev.take(i as int + 1));
        }
        i = i + 1;
    }
    assert(ev.take(i as int) =~= ev);
    (target, annotation_error)
}


/// The position of a sysctl equal to `s` in `v`, if there is one.
fn find_sysctl(v: &Vec<Sysctl>, s: &Sysctl) -> (r: Option<usize>)
    ensures
        match r {
            Some(j) => j < v@.len() && v@[j as int]@ == s@,
            None => !sysctl_entries(v@).contains(s@),
        },
{
    let mut j: usize = 0;
    while j < v.len()
        invariant
            j <= v@.len(),
            forall|k: int| 0 <= k < j ==> v@[k]@ != s@,
        decreases v@.len() - j,
    {
        if v[j].name == s.name && v[j].value == s.value {
            return Some(j);
        }
        j = j + 1;
    }
    proof {
        if sysctl_entries(v@).contains(s@) {
            let k = choose|k: int| 0 <= k < sysctl_entries(v@).len() && sysctl_entries(v@)[k] == s@;
            assert(v@[k]@ == s@);
        }
    }
    None
}

/// A copy of a list of sysctls.
fn copy_sysctls(v: &Vec<Sysctl>) -> (r: Vec<Sysctl>)
    ensures
        sysctl_entries(r@) == sysctl_entries(v@),
{
    let mut r: Vec<Sysctl> = Vec::new();
    let mut i: usize = 0;
    while i < v.len()
        invariant
            i <= v@.len(),
            r@.len() == i,
            forall|k: int| 0 <= k < i ==> #[trigger] r@[k]@ == v@[k]@,
        decreases v@.len() - i,
    {
        r.push(v[i].clone());
        i = i + 1;
    }
    assert(sysctl_entries(r@) =~= sysctl_entries(v@));
    r
}

/// Whether two lists hold the same sysctls, each equally often, in whatever order.
pub fn same_sysctls(existing: &Vec<Sysctl>, target: &Vec<Sysctl>) -> (r: bool)
    ensures
        r == (sysctl_entries(existing@).to_multiset() == sysctl_entries(target@).to_multiset()),
{
    broadcast use vstd::multiset::group_multiset_axioms, group_to_multiset_ensures;

    let ghost ev = sysctl_entries(existing@);
    let ghost tv = sysctl_entries(target@);
    let mut rest = copy_sysctls(existing);
    let mut i: usize = 0;
    assert(tv.take(0) =~= Seq::<EntryView>::empty());
    assert(sysctl_entries(rest@).to_multiset().add(tv.take(0).to_multiset()) =~= ev.to_multiset());
    while i < target.len()
        invariant
            i <= target@.len(),
            ev == sysctl_entries(existing@),
            tv == sysctl_entries(target@),
            sysctl_entries(rest@).to_multiset().add(tv.take(i as int).to_multiset()) == ev.to_multiset(),
        decreases target@.len() - i,
    {
        let ghost x = tv[i as int];
        let ghost rv = sysctl_entries(rest@);
        assert(tv.take(i as int + 1) =~= tv.take(i as int).push(x));
        match find_sysctl(&rest, &target[i]) {
            None => {
                proof {
                    let pre = tv.take(i as int);
                    let post = tv.skip(i as int);
                    assert(tv =~= pre + post);
                    lemma_multiset_commutative(pre, post);
                    assert(post[0] == x);
                    assert(post.contains(x));
                    to_multiset_contains(post, x);
                    to_multiset_contains(rv, x);
                    assert(target@[i as int]@ == x);
                    assert(!rv.contains(x));
                    assert(rv.to_multiset().count(x) == 0);
                    assert(ev.to_multiset().count(x) == pre.to_multiset().count(x));
                    assert(tv.to_multiset().count(x) > pre.to_multiset().count(x));
                }
                return false;
            },
            Some(j) => {
                rest.remove(j);
                proof {
                    assert(sysctl_entries(rest@) =~= rv.remove(j as int));
                    assert(rv[j as int] == x);
                    to_multiset_contains(rv, x);
                    to_multiset_remove(rv, j as int);
                    to_multiset_build(tv.take(i as int), x);
                    let a = rv.to_multiset();
                    let b = tv.take(i as int).to_multiset();
                    assert(a.remove(x).add(b.insert(x)) =~= a.add(b));
                    assert(sysctl_entries(rest@).to_multiset().add(tv.take(i as int + 1).to_multiset())
                        =~= ev.to_multiset());
                }
            },
        }
        i = i + 1;
    }
    assert(tv.take(i as int) =~= tv);
    if rest.len() == 0 {
        assert(sysctl_entries(rest@) =~= Seq::<EntryView>::empty());
        assert(sysctl_entries(rest@).to_multiset() =~= vstd::multiset::Multiset::empty());
        assert(ev.to_multiset() =~= tv.to_multiset());
        true
    } else {
        assert(ev.to_multiset().len() > tv.to_multiset().len());
        false
    }
}


/// The HTTP status of a reply that carries a review.
pub const STATUS_OK: u16 = 200;
/// The HTTP status of a reply to a review without a request.
pub const STATUS_BAD_REQUEST: u16 = 400;
/// The reason given when a review holds no request.
pub const MISSING_REQUEST_MESSAGE: &'static str = "Missing request field";
/// The message given when a request holds no pod.
pub const MISSING_OBJECT_MESSAGE: &'static str = "Missing Pod object in request";
/// The reason given when a request holds no pod.
pub const MISSING_OBJECT_REASON: &'static str = "InvalidRequest";
/// The status code given when a request holds no pod.
pub const MISSING_OBJECT_CODE: u16 = 400;

/// The operation that an admission request is for.
#[derive(Debug, Clone, Copy, PartialEq, Eq, Structural)]
pub enum Operation {
    Create,
    Update,
    Delete,
    Connect,
}

/// How an operation is named in reports.
pub open spec fn operation_label(op: Operation) -> Seq<char> {
    match op {
        Operation::Create => "CREATE"@,
        Operation::Update => "UPDATE"@,
        Operation::Delete => "DELETE"@,
        Operation::Connect => "CONNECT"@,
    }
}

impl Operation {
    /// How this operation is named in reports.
    pub fn label(&self) -> (s: &'static str)
        ensures
            s@ == operation_label(*self),
    {
        match self {
            Operation::Create => "CREATE",
            Operation::Update => "UPDATE",
            Operation::Delete => "DELETE",
            Operation::Connect => "CONNECT",
        }
    }
}

/// The part of an admission request that the webhook reads.
pub struct AdmissionRequest {
    pub operation: Operation,
    pub namespace: Option<String>,
    pub object: Option<Pod>,
}

/// The operation of a JSON patch.
#[derive(Debug, Clone, Copy, PartialEq, Eq, Structural)]
pub enum PatchOp {
    Add,
    Replace,
}

impl PatchOp {
    /// The name of the operation in a JSON patch.
    pub fn name(&self) -> (s: &'static str)
        ensures
            s@ == (match self {
                PatchOp::Add => "add"@,
                PatchOp::Replace => "replace"@,
            }),
    {
        match self {
            PatchOp::Add => "add",
            PatchOp::Replace => "replace",
        }
    }
}

/// Where a sysctl patch writes.
#[derive(Debug, Clone, Copy, PartialEq, Eq, Structural)]
pub enum PatchTarget {
    /// The pod's whole security context, as `{"sysctls": [...]}`.
    SecurityContext,
    /// The list of sysctls in the pod's security context.
    Sysctls,
}

impl PatchTarget {
    /// The JSON pointer of the place written.
    pub fn path(&self) -> (s: &'static str)
        ensures
            s@ == (match self {
                PatchTarget::SecurityContext => "/spec/securityContext"@,
                PatchTarget::Sysctls => "/spec/securityContext/sysctls"@,
            }),
    {
        match self {
            PatchTarget::SecurityContext => "/spec/securityContext",
            PatchTarget::Sysctls => "/spec/securityContext/sysctls",
        }
    }
}

/// A JSON patch of one operation that gives a pod a list of sysctls.
pub struct SysctlPatch {
    pub op: PatchOp,
    pub target: PatchTarget,
    pub sysctls: Vec<Sysctl>,
}

/// The operation that a patch of the pod's sysctls uses: `replace` where the pod already
/// lists sysctls, `add` where it does not.
pub open spec fn patch_op_for(pod: Pod) -> PatchOp {
    if pod.has_sysctl_list() {
        PatchOp::Replace
    } else {
        PatchOp::Add
    }
}

/// Where a patch of the pod's sysctls writes: the whole security context where the pod has
/// none, its list of sysctls otherwise.
pub open spec fn patch_target_for(pod: Pod) -> PatchTarget {
    if pod.has_security_context() {
        PatchTarget::Sysctls
    } else {
        PatchTarget::SecurityContext
    }
}

/// The webhook's answer to an admission review.
pub enum Verdict {
    /// The review holds no request: the answer is an invalid-review response.
    MissingRequest,
    /// The request holds no pod: the pod is refused.
    MissingObject,
    /// The pod is admitted unchanged.
    Allow,
    /// The pod is admitted with this patch.
    Patch(SysctlPatch),
}

/// The outcome of reviewing a pod: the answer, with what is reported of the request.
pub struct MutationOutcome {
    /// The HTTP status of the reply.
    pub status: u16,
    /// The operation of the request, if there was a request.
    pub operation: Option<Operation>,
    /// The namespace of the request, if there was a request that named one.
    pub namespace: Option<String>,
    /// Whether the pod is admitted.
    pub allowed: bool,
    pub verdict: Verdict,
    /// Why the namespace's sysctls annotation could not be read, where the merge read it and
    /// could not; that level of the merge is then left out.
    pub annotation_error: Option<SysctlsParseError>,
}

impl MutationOutcome {
    /// How the request's operation is named in reports: `UNKNOWN` where there was no request.
    pub fn operation_label(&self) -> (s: &'static str)
        ensures
            s@ == (match self.operation {
                Some(op) => operation_label(op),
                None => "UNKNOWN"@,
            }),
    {
        match self.operation {
            Some(op) => op.label(),
            None => "UNKNOWN",
        }
    }

    /// How the request's namespace is named in reports: `unknown` where it names none.
    pub fn namespace_label(&self) -> (s: String)
        ensures
            s@ == (match self.namespace {
                Some(n) => n@,
                None => "unknown"@,
            }),
    {
        match &self.namespace {
            Some(n) => n.clone(),
            None => String::from_str("unknown"),
        }
    }
}

/// The sysctls that the pod lists, copied.
fn existing_sysctls(pod: &Pod) -> (r: Vec<Sysctl>)
    ensures
        sysctl_entries(r@) == pod.sysctl_list(),
{
    if let Some(spec) = &pod.spec {
        if let Some(sc) = &spec.security_context {
            if let Some(sysctls) = &sc.sysctls {
                return copy_sysctls(sysctls);
            }
        }
    }
    let r: Vec<Sysctl> = Vec::new();
    assert(sysctl_entries(r@) =~= Seq::<EntryView>::empty());
    r
}

/// Whether the pod shares the host's network or IPC namespace.
fn shares_host_namespaces(pod: &Pod) -> (b: bool)
    ensures
        b == pod.shares_host_namespaces(),
{
    match &pod.spec {
        Some(spec) => {
            let host_network = match spec.host_network {
                Some(b) => b,
                None => false,
            };
            let host_ipc = match spec.host_ipc {
                Some(b) => b,
                None => false,
            };
            host_network || host_ipc
        },
        None => false,
    }
}

/// Reviews a pod for admission: answers a review without a request as invalid, refuses a
/// request without a pod, admits unchanged a pod that shares the host's network or IPC
/// namespace or already holds exactly the merged sysctls, and otherwise admits the pod with
/// a patch that gives it the merged sysctls.
///
/// `ns_opt` is the namespace named by the request, where it is known.
pub fn mutate_handler_inner(
    request: Option<&AdmissionRequest>,
    ns_opt: Option<&Namespace>,
    default_sysctls: &StringMap,
) -> (out: MutationOutcome)
    ensures
        match request {
            None => {
                &&& out.status == STATUS_BAD_REQUEST
                &&& !out.allowed
                &&& out.operation is None
                &&& out.namespace is None
                &&& out.verdict is MissingRequest
                &&& out.annotation_error is None
            },
            Some(req) => {
                &&& out.operation == Some(req.operation)
                &&& out.namespace == req.namespace
                &&& out.status == STATUS_OK
                &&& match req.object {
                    None => !out.allowed && out.verdict is MissingObject && out.annotation_error is None,
                    Some(pod) => {
                        &&& out.allowed
                        &&& (out.annotation_error is Some <==> !pod.shares_host_namespaces()
                            && annotation_unreadable(ns_opt))
                        &&& if pod.shares_host_namespaces() || !needs_mutation(
                            pod,
                            ns_opt,
                            default_sysctls@,
                        ) {
                            out.verdict is Allow
                        } else {
                            &&& out.verdict is Patch
                            &&& out.verdict->Patch_0.op == patch_op_for(pod)
                            &&& out.verdict->Patch_0.target == patch_target_for(pod)
                            &&& sysctl_entries(out.verdict->Patch_0.sysctls@) == sorted_listing(
                                merged_sysctl_map(pod, ns_opt, default_sysctls@),
                            )
                        }
                    },
                }
            },
        },
        match request {
            Some(req) => match req.object {
                Some(pod) => match pod.spec {
                    Some(s) => s.host_network == Some(true) || s.host_ipc == Some(true) ==> out.allowed
                        && out.verdict is Allow,
                    None => true,
                },
                None => true,
            },
            None => true,
        },
{
    let req = match request {
        Some(req) => req,
        None => {
            return MutationOutcome {
                status: STATUS_BAD_REQUEST,
                operation: None,
                namespace: None,
                allowed: false,
                verdict: Verdict::MissingRequest,
                annotation_error: None,
            };
        },
    };
    let operation = Some(req.operation);
    let namespace = req.namespace.clone();
    let pod = match &req.object {
        Some(pod) => pod,
        None => {
            return MutationOutcome {
                status: STATUS_OK,
                operation,
                namespace,
                allowed: false,
                verdict: Verdict::MissingObject,
                annotation_error: None,
            };
        },
    };
    // Skip mutation for pods sharing host namespaces (hostNetwork or hostIPC)
    if shares_host_namespaces(pod) {
        return MutationOutcome {
            status: STATUS_OK,
            operation,
            namespace,
            allowed: true,
            verdict: Verdict::Allow,
            annotation_error: None,
        };
    }
    let (target_sysctls, annotation_error) = merge_and_report(pod, ns_opt, default_sysctls);
    let existing = existing_sysctls(pod);
    if same_sysctls(&existing, &target_sysctls) {
        return MutationOutcome {
            status: STATUS_OK,
            operation,
            namespace,
            allowed: true,
            verdict: Verdict::Allow,
            annotation_error,
        };
    }
    let (has_security_context, has_sysctls) = match &pod.spec {
        Some(spec) => match &spec.security_context {
            Some(sc) => (true, sc.sysctls.is_some()),
            None => (false, false),
        },
        None => (false, false),
    };
    let op = if has_sysctls {
        PatchOp::Replace
    } else {
        PatchOp::Add
    };
    let target = if has_security_context {
        PatchTarget::Sysctls
    } else {
        PatchTarget::SecurityContext
    };
    MutationOutcome {
        status: STATUS_OK,
        operation,
        namespace,
        allowed: true,
        verdict: Verdict::Patch(SysctlPatch { op, target, sysctls: target_sysctls }),
        annotation_error,
    }
}


/// The precedence of the merge: a sysctl that the pod sets takes the pod's value; one that
/// only the namespace and possibly the defaults set takes the namespace's value; one that only
/// the defaults set takes the default value; one that no level sets is absent.
pub proof fn lemma_merge_precedence(
    pod: Pod,
    ns: Option<&Namespace>,
    defaults: Map<Seq<char>, Seq<char>>,
    name: Seq<char>,
)
    ensures
        ({
            let merged = merged_sysctl_map(pod, ns, defaults);
            let own = fold_pairs(pod.sysctl_list());
            let from_ns = namespace_sysctls(ns);
            &&& merged.contains_key(name) <==> (own.contains_key(name) || from_ns.contains_key(name)
                || defaults.contains_key(name))
            &&& own.contains_key(name) ==> merged[name] == own[name]
            &&& !own.contains_key(name) && from_ns.contains_key(name) ==> merged[name] == from_ns[name]
            &&& !own.contains_key(name) && !from_ns.contains_key(name) && defaults.contains_key(name)
                ==> merged[name] == defaults[name]
        }),
{
}

/// Without a namespace (as in the low-privilege mode, where namespaces are not read), the
/// merge is the defaults overridden by the pod's own sysctls.
pub proof fn lemma_merge_without_namespace(pod: Pod, defaults: Map<Seq<char>, Seq<char>>)
    ensures
        merged_sysctl_map(pod, None, defaults) == defaults.union_prefer_right(
            fold_pairs(pod.sysctl_list()),
        ),
{
    assert(defaults.union_prefer_right(namespace_sysctls(None)) =~= defaults);
}

/// The merged sysctls of a pod form a finite map.
pub proof fn lemma_merged_finite(pod: Pod, ns: Option<&Namespace>, defaults: Map<Seq<char>, Seq<char>>)
    requires
        defaults.dom().finite(),
    ensures
        merged_sysctl_map(pod, ns, defaults).dom().finite(),
{
    lemma_fold_pairs_finite(pod.sysctl_list());
    match ns {
        Some(n) => match n.annotations {
            Some(a) => if a@.contains_key(SYSCTLS_ANNOTATION@) {
                match json_string_map(a@[SYSCTLS_ANNOTATION@]) {
                    Some(p) => lemma_fold_pairs_finite(p),
                    None => {},
                }
            },
            None => {},
        },
        None => {},
    }
    let m1 = defaults.union_prefer_right(namespace_sysctls(ns));
    assert(m1.dom() =~= defaults.dom().union(namespace_sysctls(ns).dom()));
    let m2 = merged_sysctl_map(pod, ns, defaults);
    assert(m2.dom() =~= m1.dom().union(fold_pairs(pod.sysctl_list()).dom()));
}

/// A patched pod is left alone: a pod that has been given the sysctls of the patch, reviewed
/// again with the same namespace and defaults, has the same merged sysctls and needs no
/// mutation.
pub proof fn lemma_patched_pod_is_stable(
    pod: Pod,
    patched: Pod,
    ns: Option<&Namespace>,
    defaults: Map<Seq<char>, Seq<char>>,
)
    requires
        defaults.dom().finite(),
        patched.sysctl_list() == sorted_listing(merged_sysctl_map(pod, ns, defaults)),
    ensures
        merged_sysctl_map(patched, ns, defaults) == merged_sysctl_map(pod, ns, defaults),
        !needs_mutation(patched, ns, defaults),
{
    let m = merged_sysctl_map(pod, ns, defaults);
    lemma_merged_finite(pod, ns, defaults);
    lemma_sorted_listing_exists(m);
    lemma_fold_ascending(sorted_listing(m));
    let base = defaults.union_prefer_right(namespace_sysctls(ns));
    assert(base.union_prefer_right(m) =~= m);
}


/// Reordering a pod's sysctls changes nothing: two pods that differ only in the order of their
/// sysctls, whose names are pairwise distinct, have the same merged sysctls, the same need for
/// mutation, and get the same patch.
pub proof fn lemma_reordered_pod_same_outcome(
    pod1: Pod,
    pod2: Pod,
    ns: Option<&Namespace>,
    defaults: Map<Seq<char>, Seq<char>>,
)
    requires
        pod1.shares_host_namespaces() == pod2.shares_host_namespaces(),
        pod1.has_security_context() == pod2.has_security_context(),
        pod1.has_sysctl_list() == pod2.has_sysctl_list(),
        pod1.sysctl_list().to_multiset() == pod2.sysctl_list().to_multiset(),
        distinct_keys(pod1.sysctl_list()),
        distinct_keys(pod2.sysctl_list()),
    ensures
        merged_sysctl_map(pod1, ns, defaults) == merged_sysctl_map(pod2, ns, defaults),
        needs_mutation(pod1, ns, defaults) == needs_mutation(pod2, ns, defaults),
        patch_op_for(pod1) == patch_op_for(pod2),
        patch_target_for(pod1) == patch_target_for(pod2),
{
    lemma_fold_distinct(pod1.sysctl_list());
    lemma_fold_distinct(pod2.sysctl_list());
    lemma_listing_map_reordered(pod1.sysctl_list(), pod2.sysctl_list());
}


/// A pod shares the host's namespaces exactly when its spec sets `host_network` or
/// `host_ipc` to true, whatever else the spec (its security context among it) holds.
pub proof fn lemma_host_namespaces_by_fields(pod: Pod)
    ensures
        pod.shares_host_namespaces() <==> (pod.spec is Some && (pod.spec->0.host_network == Some(true)
            || pod.spec->0.host_ipc == Some(true))),
{
}

/// The pod's own sysctls are its whole list: every entry of `spec.securityContext.sysctls`,
/// in order, and nothing where that list is absent.
pub proof fn lemma_pod_list_is_whole_field(pod: Pod)
    ensures
        match pod.spec {
            Some(s) => match s.security_context {
                Some(c) => match c.sysctls {
                    Some(v) => {
                        &&& pod.sysctl_list().len() == v@.len()
                        &&& forall|i: int|
                            0 <= i < v@.len() ==> #[trigger] pod.sysctl_list()[i] == (
                                v@[i].name@,
                                v@[i].value@,
                            )
                    },
                    None => pod.sysctl_list().len() == 0,
                },
                None => pod.sysctl_list().len() == 0,
            },
            None => pod.sysctl_list().len() == 0,
        },
{
}

/// The last position at or after `i` of an entry named as entry `i`.
spec fn last_with_name(v: Seq<Sysctl>, i: int) -> int
    decreases v.len() - i,
{
    if i + 1 >= v.len() {
        i
    } else if exists|j: int| i < j < v.len() && v[j].name@ == v[i].name@ {
        let j = choose|j: int| i < j < v.len() && v[j].name@ == v[i].name@;
        if j > i {
            last_with_name(v, j)
        } else {
            i
        }
    } else {
        i
    }
}

proof fn lemma_last_with_name(v: Seq<Sysctl>, i: int)
    requires
        0 <= i < v.len(),
    ensures
        i <= last_with_name(v, i) < v.len(),
        v[last_with_name(v, i)].name@ == v[i].name@,
        forall|j: int| last_with_name(v, i) < j < v.len() ==> v[j].name@ != v[i].name@,
    decreases v.len() - i,
{
    if i + 1 < v.len() && exists|j: int| i < j < v.len() && v[j].name@ == v[i].name@ {
        let j = choose|j: int| i < j < v.len() && v[j].name@ == v[i].name@;
        lemma_last_with_name(v, j);
    }
}

/// Every sysctl that the pod lists is in the merge, with the value of its last entry in
/// the pod's list, whatever the defaults and the namespace say.
pub proof fn lemma_pod_sysctls_in_merge(
    pod: Pod,
    ns: Option<&Namespace>,
    defaults: Map<Seq<char>, Seq<char>>,
    v: Seq<Sysctl>,
    i: int,
)
    requires
        pod.spec matches Some(s) && s.security_context matches Some(c) && c.sysctls matches Some(w)
            && w@ == v,
        0 <= i < v.len(),
    ensures
        merged_sysctl_map(pod, ns, defaults).contains_key(v[i].name@),
        (forall|j: int| i < j < v.len() ==> v[j].name@ != v[i].name@) ==> merged_sysctl_map(
            pod,
            ns,
            defaults,
        )[v[i].name@] == v[i].value@,
{
    lemma_pod_list_is_whole_field(pod);
    let l = pod.sysctl_list();
    lemma_last_with_name(v, i);
    let k = last_with_name(v, i);
    assert(l[k] == (v[k].name@, v[k].value@));
    assert forall|j: int| k < j < l.len() implies #[trigger] l[j].0 != l[k].0 by {
        assert(l[j] == (v[j].name@, v[j].value@));
    }
    lemma_fold_last_wins(l, k);
    if forall|j: int| i < j < v.len() ==> v[j].name@ != v[i].name@ {
        assert(l[i] == (v[i].name@, v[i].value@));
        assert forall|j: int| i < j < l.len() implies #[trigger] l[j].0 != l[i].0 by {
            assert(l[j] == (v[j].name@, v[j].value@));
        }
        lemma_fold_last_wins(l, i);
    }
}

/// A namespace's sysctls, where its sysctls annotation holds a JSON object of string values,
/// are that object's entries, whatever other annotations the namespace carries.
pub proof fn lemma_namespace_sysctls_are_annotation_entries(n: Namespace)
    ensures
        match n.annotations {
            Some(a) => {
                &&& a@.contains_key(SYSCTLS_ANNOTATION@) && json_string_map(a@[SYSCTLS_ANNOTATION@]) is Some
                    ==> namespace_sysctls(Some(&n)) == fold_pairs(json_string_map(a@[SYSCTLS_ANNOTATION@])->0)
                &&& !a@.contains_key(SYSCTLS_ANNOTATION@) ==> namespace_sysctls(Some(&n)).dom().len() == 0
            },
            None => namespace_sysctls(Some(&n)).dom().len() == 0,
        },
{
    assert(Map::<Seq<char>, Seq<char>>::empty().dom() =~= Set::<Seq<char>>::empty());
}

/// A namespace's sysctls depend on its sysctls annotation alone: two namespaces whose
/// annotations agree on that key (both lack it, or both hold the same value under it) set the
/// same sysctls, however their other annotations differ.
pub proof fn lemma_namespace_sysctls_depend_on_annotation_only(n1: Namespace, n2: Namespace)
    requires
        n1.annotations matches Some(a1) && n2.annotations matches Some(a2) && a1@.contains_key(
            SYSCTLS_ANNOTATION@,
        ) == a2@.contains_key(SYSCTLS_ANNOTATION@) && (a1@.contains_key(SYSCTLS_ANNOTATION@)
            ==> a1@[SYSCTLS_ANNOTATION@] == a2@[SYSCTLS_ANNOTATION@]),
    ensures
        namespace_sysctls(Some(&n1)) == namespace_sysctls(Some(&n2)),
{
}

} // verus!
