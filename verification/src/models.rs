//! The data that rules, events and the control API carry.
//!
//! String maps of the wire format (JSON objects) are held as vectors of
//! (key, value) pairs; a lookup reads the last pair with the key, as a map
//! built from the pairs in order would.
use vstd::prelude::*;

verus! {

/// A UTC instant: whole seconds since the Unix epoch and the nanoseconds
/// past them.
#[derive(Debug, Clone, Copy, PartialEq, Eq, Structural)]
pub struct UtcTimestamp {
    pub secs: i64,
    pub nanos: u32,
}

impl UtcTimestamp {
    /// `self` is strictly later than `other`.
    pub open spec fn is_after(self, other: UtcTimestamp) -> bool {
        self.secs > other.secs || (self.secs == other.secs && self.nanos > other.nanos)
    }

    /// `self > other` on instants.
    pub fn later_than(&self, other: &UtcTimestamp) -> (r: bool)
        ensures
            r == self.is_after(*other),
    {
        self.secs > other.secs || (self.secs == other.secs && self.nanos > other.nanos)
    }
}

/// The views of a list of string pairs.
pub open spec fn pairs_view(s: Seq<(String, String)>) -> Seq<(Seq<char>, Seq<char>)> {
    s.map_values(|p: (String, String)| (p.0@, p.1@))
}

/// The views of a list of strings.
pub open spec fn strings_view(s: Seq<String>) -> Seq<Seq<char>> {
    s.map_values(|x: String| x@)
}

/// The value of the last pair whose key is `key`.
pub open spec fn lookup_last<V>(pairs: Seq<(Seq<char>, V)>, key: Seq<char>) -> Option<V>
    decreases pairs.len(),
{
    if pairs.len() == 0 {
        None
    } else if pairs.last().0 == key {
        Some(pairs.last().1)
    } else {
        lookup_last(pairs.drop_last(), key)
    }
}

/// A copy of a list of string pairs.
pub fn copy_pairs(v: &Vec<(String, String)>) -> (r: Vec<(String, String)>)
    ensures
        r@ == v@,
{
    let mut out: Vec<(String, String)> = Vec::new();
    let mut i: usize = 0;
    while i < v.len()
        invariant
            i <= v.len(),
            out@ == v@.subrange(0, i as int),
        decreases v.len() - i,
    {
        let (k, x) = &v[i];
        out.push((k.clone(), x.clone()));
        assert(out@ =~= v@.subrange(0, i + 1));
        i = i + 1;
    }
    assert(v@.subrange(0, v.len() as int) =~= v@);
    out
}

/// A copy of a list of strings.
pub fn copy_strings(v: &Vec<String>) -> (r: Vec<String>)
    ensures
        r@ == v@,
{
    let r = v.clone();
    assert(r@ =~= v@);
    r
}

/// A copy of an optional string.
pub fn copy_opt_string(v: &Option<String>) -> (r: Option<String>)
    ensures
        opt_view(r) == opt_view(*v),
{
    match v {
        Some(s) => Some(s.clone()),
        None => None,
    }
}

/// What a request must look like for a rule to match.
#[derive(Debug, Clone)]
pub struct RuleMatcher {
    pub methods: Option<Vec<String>>,
    pub url_pattern: String,
    pub header_equals: Vec<(String, String)>,
    pub query_equals: Vec<(String, String)>,
    pub body_contains: Option<String>,
}

/// Answer the request without contacting the upstream server.
#[derive(Debug, Clone)]
pub struct MockResponseAction {
    pub status: u16,
    pub headers: Vec<(String, String)>,
    pub body: Option<String>,
    pub content_type: Option<String>,
    pub delay_ms: Option<u64>,
}

/// Edits applied to headers and body on one side of an exchange.
#[derive(Debug, Clone)]
pub struct TransformOps {
    pub set_headers: Vec<(String, String)>,
    pub remove_headers: Vec<String>,
    pub replace_body: Option<String>,
    pub json_set: Vec<(String, serde_json::Value)>,
}

/// Forward the request, editing it and its response on the way.
#[derive(Debug, Clone)]
pub struct RewritePassThroughAction {
    pub request: Option<TransformOps>,
    pub response: Option<TransformOps>,
    pub delay_ms: Option<u64>,
}

/// One step of a sequence.
#[derive(Debug, Clone)]
pub enum SequenceStepAction {
    MockResponse(MockResponseAction),
    RewritePassThrough(RewritePassThroughAction),
}

/// A step of a sequence action.
#[derive(Debug, Clone)]
pub struct SequenceStep {
    pub action: SequenceStepAction,
}

/// Steps taken in turn on successive matches.
#[derive(Debug, Clone)]
pub struct SequenceAction {
    pub steps: Vec<SequenceStep>,
}

/// What a matching rule does.
#[derive(Debug, Clone)]
pub enum RuleAction {
    MockResponse(MockResponseAction),
    RewritePassThrough(RewritePassThroughAction),
    Sequence(SequenceAction),
}

/// The action taken for one request.
#[derive(Debug, Clone)]
pub enum ResolvedAction {
    MockResponse(MockResponseAction),
    RewritePassThrough(RewritePassThroughAction),
}

/// A user-defined rewrite rule.
#[derive(Debug, Clone)]
pub struct RewriteRule {
    pub id: String,
    pub name: String,
    pub enabled: bool,
    pub priority: i32,
    pub matcher: RuleMatcher,
    pub action: RuleAction,
    pub tags: Vec<String>,
    pub created_at: UtcTimestamp,
    pub updated_at: UtcTimestamp,
}

/// One entry of the proxy's event log.
#[derive(Debug, Clone)]
pub struct ProxyEvent {
    pub id: String,
    pub timestamp: UtcTimestamp,
    pub method: String,
    pub url: String,
    pub matched_rule_id: Option<String>,
    pub matched_rule_name: Option<String>,
    pub decision: String,
    pub status: Option<u16>,
    pub notes: Vec<String>,
}

/// The proxy's state as the control API reports it.
#[derive(Debug, Clone)]
pub struct ProxyStatus {
    pub interception_enabled: bool,
    pub proxy_port: u16,
    pub control_port: u16,
    pub cert_ready: bool,
    pub mitm_ready: bool,
    pub rule_count: usize,
    pub recent_event_count: usize,
    pub last_error: Option<String>,
}

/// Body of `POST /status/interception`.
#[derive(Debug)]
pub struct InterceptionUpdateRequest {
    pub enabled: bool,
}

/// Body of `POST /status/cert`.
#[derive(Debug)]
pub struct CertStatusUpdateRequest {
    pub cert_ready: bool,
    pub mitm_ready: bool,
}

/// Answer of `GET /version`.
#[derive(Debug)]
pub struct VersionResponse {
    pub name: &'static str,
    pub version: &'static str,
    pub protocol_version: u16,
}

/// Answer of `GET /health`.
#[derive(Debug)]
pub struct HealthResponse {
    pub ok: bool,
}

/// Body of an error answer of the control API.
#[derive(Debug)]
pub struct ErrorResponse {
    pub error: String,
}

/// Answer of `POST /diagnostics/rewrite-check`.
#[derive(Debug)]
pub struct RewriteDiagnosticsResponse {
    pub ok: bool,
    pub matched_enabled_rule: bool,
    pub enabled_rule_count: usize,
}

/// What a matcher holds, as values.
pub struct RuleMatcherView {
    pub methods: Option<Seq<Seq<char>>>,
    pub url_pattern: Seq<char>,
    pub header_equals: Seq<(Seq<char>, Seq<char>)>,
    pub query_equals: Seq<(Seq<char>, Seq<char>)>,
    pub body_contains: Option<Seq<char>>,
}

/// What a mock action holds, as values.
pub struct MockResponseView {
    pub status: u16,
    pub headers: Seq<(Seq<char>, Seq<char>)>,
    pub body: Option<Seq<char>>,
    pub content_type: Option<Seq<char>>,
    pub delay_ms: Option<u64>,
}

/// What a set of edits holds, as values.
pub struct TransformOpsView {
    pub set_headers: Seq<(Seq<char>, Seq<char>)>,
    pub remove_headers: Seq<Seq<char>>,
    pub replace_body: Option<Seq<char>>,
    pub json_set: Seq<(Seq<char>, serde_json::Value)>,
}

/// What a pass-through action holds, as values.
pub struct RewritePassThroughView {
    pub request: Option<TransformOpsView>,
    pub response: Option<TransformOpsView>,
    pub delay_ms: Option<u64>,
}

/// An action that answers one request, as values (also a sequence step).
pub enum ActionStepView {
    MockResponse(MockResponseView),
    RewritePassThrough(RewritePassThroughView),
}

/// A rule's action, as values.
pub enum RuleActionView {
    MockResponse(MockResponseView),
    RewritePassThrough(RewritePassThroughView),
    Sequence(Seq<ActionStepView>),
}

/// A rule, as values.
pub struct RewriteRuleView {
    pub id: Seq<char>,
    pub name: Seq<char>,
    pub enabled: bool,
    pub priority: i32,
    pub matcher: RuleMatcherView,
    pub action: RuleActionView,
    pub tags: Seq<Seq<char>>,
    pub created_at: UtcTimestamp,
    pub updated_at: UtcTimestamp,
}

/// An event, as values.
pub struct ProxyEventView {
    pub id: Seq<char>,
    pub timestamp: UtcTimestamp,
    pub method: Seq<char>,
    pub url: Seq<char>,
    pub matched_rule_id: Option<Seq<char>>,
    pub matched_rule_name: Option<Seq<char>>,
    pub decision: Seq<char>,
    pub status: Option<u16>,
    pub notes: Seq<Seq<char>>,
}

/// The view of an optional string.
pub open spec fn opt_view(s: Option<String>) -> Option<Seq<char>> {
    match s {
        Some(x) => Some(x@),
        None => None,
    }
}

impl View for RuleMatcher {
    type V = RuleMatcherView;

    open spec fn view(&self) -> RuleMatcherView {
        RuleMatcherView {
            methods: match self.methods {
                Some(m) => Some(strings_view(m@)),
                None => None,
            },
            url_pattern: self.url_pattern@,
            header_equals: pairs_view(self.header_equals@),
            query_equals: pairs_view(self.query_equals@),
            body_contains: opt_view(self.body_contains),
        }
    }
}

impl View for MockResponseAction {
    type V = MockResponseView;

    open spec fn view(&self) -> MockResponseView {
        MockResponseView {
            status: self.status,
            headers: pairs_view(self.headers@),
            body: opt_view(self.body),
            content_type: opt_view(self.content_type),
            delay_ms: self.delay_ms,
        }
    }
}

/// The views of the JSON edits of a transform.
pub open spec fn json_pairs_view(s: Seq<(String, serde_json::Value)>) -> Seq<(Seq<char>, serde_json::Value)> {
    s.map_values(|p: (String, serde_json::Value)| (p.0@, p.1))
}

impl View for TransformOps {
    type V = TransformOpsView;

    open spec fn view(&self) -> TransformOpsView {
        TransformOpsView {
            set_headers: pairs_view(self.set_headers@),
            remove_headers: strings_view(self.remove_headers@),
            replace_body: opt_view(self.replace_body),
            json_set: json_pairs_view(self.json_set@),
        }
    }
}

/// The view of optional edits.
pub open spec fn opt_transform_view(t: Option<TransformOps>) -> Option<TransformOpsView> {
    match t {
        Some(x) => Some(x@),
        None => None,
    }
}

impl View for RewritePassThroughAction {
    type V = RewritePassThroughView;

    open spec fn view(&self) -> RewritePassThroughView {
        RewritePassThroughView {
            request: opt_transform_view(self.request),
            response: opt_transform_view(self.response),
            delay_ms: self.delay_ms,
        }
    }
}

impl View for SequenceStep {
    type V = ActionStepView;

    open spec fn view(&self) -> ActionStepView {
        match self.action {
            SequenceStepAction::MockResponse(a) => ActionStepView::MockResponse(a@),
            SequenceStepAction::RewritePassThrough(a) => ActionStepView::RewritePassThrough(a@),
        }
    }
}

impl View for ResolvedAction {
    type V = ActionStepView;

    open spec fn view(&self) -> ActionStepView {
        match self {
            ResolvedAction::MockResponse(a) => ActionStepView::MockResponse(a@),
            ResolvedAction::RewritePassThrough(a) => ActionStepView::RewritePassThrough(a@),
        }
    }
}

/// The views of the steps of a sequence.
pub open spec fn steps_view(s: Seq<SequenceStep>) -> Seq<ActionStepView> {
    s.map_values(|x: SequenceStep| x@)
}

impl View for RuleAction {
    type V = RuleActionView;

    open spec fn view(&self) -> RuleActionView {
        match self {
            RuleAction::MockResponse(a) => RuleActionView::MockResponse(a@),
            RuleAction::RewritePassThrough(a) => RuleActionView::RewritePassThrough(a@),
            RuleAction::Sequence(s) => RuleActionView::Sequence(steps_view(s.steps@)),
        }
    }
}

impl View for RewriteRule {
    type V = RewriteRuleView;

    open spec fn view(&self) -> RewriteRuleView {
        RewriteRuleView {
            id: self.id@,
            name: self.name@,
            enabled: self.enabled,
            priority: self.priority,
            matcher: self.matcher@,
            action: self.action@,
            tags: strings_view(self.tags@),
            created_at: self.created_at,
            updated_at: self.updated_at,
        }
    }
}

/// The views of a list of rules.
pub open spec fn rules_view(s: Seq<RewriteRule>) -> Seq<RewriteRuleView> {
    s.map_values(|r: RewriteRule| r@)
}

impl View for ProxyEvent {
    type V = ProxyEventView;

    open spec fn view(&self) -> ProxyEventView {
        ProxyEventView {
            id: self.id@,
            timestamp: self.timestamp,
            method: self.method@,
            url: self.url@,
            matched_rule_id: opt_view(self.matched_rule_id),
            matched_rule_name: opt_view(self.matched_rule_name),
            decision: self.decision@,
            status: self.status,
            notes: strings_view(self.notes@),
        }
    }
}

/// The views of a list of events.
pub open spec fn events_view(s: Seq<ProxyEvent>) -> Seq<ProxyEventView> {
    s.map_values(|e: ProxyEvent| e@)
}

impl TransformOps {
    /// A copy of these edits.
    pub fn copy(&self) -> (r: TransformOps)
        ensures
            r@ == self@,
    {
        let mut json_set: Vec<(String, serde_json::Value)> = Vec::new();
        let mut i: usize = 0;
        while i < self.json_set.len()
            invariant
                i <= self.json_set.len(),
                json_set@ == self.json_set@.subrange(0, i as int),
            decreases self.json_set.len() - i,
        {
            let (k, v) = &self.json_set[i];
            json_set.push((k.clone(), crate::json::json_value_copy(v)));
            assert(json_set@ =~= self.json_set@.subrange(0, i + 1));
            i = i + 1;
        }
        assert(self.json_set@.subrange(0, self.json_set.len() as int) =~= self.json_set@);
        let r = TransformOps {
            set_headers: copy_pairs(&self.set_headers),
            remove_headers: copy_strings(&self.remove_headers),
            replace_body: copy_opt_string(&self.replace_body),
            json_set,
        };
        assert(r.set_headers@ =~= self.set_headers@);
        r
    }
}

/// A copy of optional edits.
pub fn copy_opt_transform(t: &Option<TransformOps>) -> (r: Option<TransformOps>)
    ensures
        opt_transform_view(r) == opt_transform_view(*t),
{
    match t {
        Some(x) => Some(x.copy()),
        None => None,
    }
}

impl MockResponseAction {
    /// A copy of this action.
    pub fn copy(&self) -> (r: MockResponseAction)
        ensures
            r@ == self@,
    {
        MockResponseAction {
            status: self.status,
            headers: copy_pairs(&self.headers),
            body: copy_opt_string(&self.body),
            content_type: copy_opt_string(&self.content_type),
            delay_ms: self.delay_ms,
        }
    }
}

impl RewritePassThroughAction {
    /// A copy of this action.
    pub fn copy(&self) -> (r: RewritePassThroughAction)
        ensures
            r@ == self@,
    {
        RewritePassThroughAction {
            request: copy_opt_transform(&self.request),
            response: copy_opt_transform(&self.response),
            delay_ms: self.delay_ms,
        }
    }
}

impl SequenceStep {
    /// A copy of this step.
    pub fn copy(&self) -> (r: SequenceStep)
        ensures
            r@ == self@,
    {
        match &self.action {
            SequenceStepAction::MockResponse(a) => SequenceStep { action: SequenceStepAction::MockResponse(a.copy()) },
            SequenceStepAction::RewritePassThrough(a) => SequenceStep {
                action: SequenceStepAction::RewritePassThrough(a.copy()),
            },
        }
    }
}

impl RuleAction {
    /// A copy of this action.
    pub fn copy(&self) -> (r: RuleAction)
        ensures
            r@ == self@,
    {
        match self {
            RuleAction::MockResponse(a) => RuleAction::MockResponse(a.copy()),
            RuleAction::RewritePassThrough(a) => RuleAction::RewritePassThrough(a.copy()),
            RuleAction::Sequence(s) => {
                let mut steps: Vec<SequenceStep> = Vec::new();
                let mut i: usize = 0;
                while i < s.steps.len()
                    invariant
                        i <= s.steps.len(),
                        steps.len() == i,
                        steps_view(steps@) == steps_view(s.steps@.subrange(0, i as int)),
                    decreases s.steps.len() - i,
                {
                    let ghost prev = steps@;
                    let c = s.steps[i].copy();
                    steps.push(c);
                    assert forall|k: int| 0 <= k < i + 1 implies #[trigger] steps_view(steps@)[k]
                        == steps_view(s.steps@.subrange(0, i + 1))[k] by {
                        if k < i {
                            assert(steps_view(prev)[k] == steps_view(s.steps@.subrange(0, i as int))[k]);
                            assert(steps@[k] == prev[k]);
                        } else {
                            assert(steps@[k] == c);
                            assert(s.steps@.subrange(0, i + 1)[k] == s.steps@[i as int]);
                        }
                    }
                    assert(steps_view(steps@) =~= steps_view(s.steps@.subrange(0, i + 1)));
                    i = i + 1;
                }
                assert(s.steps@.subrange(0, s.steps.len() as int) =~= s.steps@);
                let r = RuleAction::Sequence(SequenceAction { steps });
                assert(r@ == self@) by {
                    assert(steps_view(steps@) =~= steps_view(s.steps@));
                }
                r
            },
        }
    }
}

impl RuleMatcher {
    /// A copy of this matcher.
    pub fn copy(&self) -> (r: RuleMatcher)
        ensures
            r@ == self@,
    {
        RuleMatcher {
            methods: match &self.methods {
                Some(m) => Some(copy_strings(m)),
                None => None,
            },
            url_pattern: self.url_pattern.clone(),
            header_equals: copy_pairs(&self.header_equals),
            query_equals: copy_pairs(&self.query_equals),
            body_contains: copy_opt_string(&self.body_contains),
        }
    }
}

impl RewriteRule {
    /// A copy of this rule.
    pub fn copy(&self) -> (r: RewriteRule)
        ensures
            r@ == self@,
    {
        RewriteRule {
            id: self.id.clone(),
            name: self.name.clone(),
            enabled: self.enabled,
            priority: self.priority,
            matcher: self.matcher.copy(),
            action: self.action.copy(),
            tags: copy_strings(&self.tags),
            created_at: self.created_at,
            updated_at: self.updated_at,
        }
    }
}

impl ProxyEvent {
    /// A copy of this event.
    pub fn copy(&self) -> (r: ProxyEvent)
        ensures
            r@ == self@,
    {
        ProxyEvent {
            id: self.id.clone(),
            timestamp: self.timestamp,
            method: self.method.clone(),
            url: self.url.clone(),
            matched_rule_id: copy_opt_string(&self.matched_rule_id),
            matched_rule_name: copy_opt_string(&self.matched_rule_name),
            decision: self.decision.clone(),
            status: self.status,
            notes: copy_strings(&self.notes),
        }
    }
}

} // verus!
