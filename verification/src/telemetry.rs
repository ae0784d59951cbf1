use crate::text::str_to_chars;
use vstd::prelude::*;
use vstd::string::StringExecFns;

verus! {

/// Whether `s` is the word `true`, in upper or lower case letters.
pub open spec fn says_true(s: Seq<char>) -> bool {
    &&& s.len() == 4
    &&& (s[0] == 't' || s[0] == 'T')
    &&& (s[1] == 'r' || s[1] == 'R')
    &&& (s[2] == 'u' || s[2] == 'U')
    &&& (s[3] == 'e' || s[3] == 'E')
}

/// Tests whether `s` is the word `true`, in upper or lower case letters.
pub fn is_true_word(s: &str) -> (r: bool)
    ensures
        r == says_true(s@),
{
    let chars = str_to_chars(s);
    chars.len() == 4 && (chars[0] == 't' || chars[0] == 'T') && (chars[1] == 'r' || chars[1]
        == 'R') && (chars[2] == 'u' || chars[2] == 'U') && (chars[3] == 'e' || chars[3] == 'E')
}

/// Whether a setting that may be missing is the word `true`.
pub open spec fn is_set(setting: Option<String>) -> bool {
    match setting {
        Some(s) => says_true(s@),
        None => false,
    }
}

/// Whether a setting is there and not empty.
pub open spec fn is_given(setting: Option<String>) -> bool {
    match setting {
        Some(s) => s@.len() > 0,
        None => false,
    }
}

/// Tests whether a setting that may be missing is the word `true`.
fn setting_is_set(setting: &Option<String>) -> (r: bool)
    ensures
        r == is_set(*setting),
{
    match setting {
        Some(s) => is_true_word(s.as_str()),
        None => false,
    }
}

/// Tests whether a setting is there and not empty.
fn setting_is_given(setting: &Option<String>) -> (r: bool)
    ensures
        r == is_given(*setting),
{
    match setting {
        Some(s) => !s.as_str().is_empty(),
        None => false,
    }
}

/// What the process environment says about error tracking, each variable as
/// it was found.
pub struct SentryVariables {
    /// `SENTRY_DISABLED`
    pub disabled: Option<String>,
    /// `SENTRY_DSN`
    pub dsn: Option<String>,
    /// `SENTRY_ENVIRONMENT`
    pub environment: Option<String>,
    /// `SENTRY_RELEASE`
    pub release: Option<String>,
    /// `SENTRY_TRACES_SAMPLE_RATE`
    pub traces_sample_rate: Option<String>,
    /// `SENTRY_SEND_DEFAULT_PII`
    pub send_default_pii: Option<String>,
}

/// The options that the error tracking client is started with.
pub struct SentryOptions {
    pub dsn: String,
    pub release: String,
    pub environment: String,
    /// The sample rate as the environment gave it; it is a fraction, and the
    /// caller reads it.
    pub traces_sample_rate: Option<String>,
    pub attach_stacktrace: bool,
    pub send_default_pii: bool,
}

/// The environment that is reported where none is configured.
pub open spec fn default_environment() -> Seq<char> {
    "production"@
}

/// The release that is reported where none is configured: the name of the
/// server, an at sign and the version of the build.
pub open spec fn default_release(version: Seq<char>) -> Seq<char> {
    "terminator-mcp-agent@"@ + version
}

/// Whether error tracking is to run: it is not switched off, and a data source
/// name is configured.
pub open spec fn tracking_enabled(disabled: Option<String>, dsn: Option<String>) -> bool {
    !is_set(disabled) && is_given(dsn)
}

/// Decides from the environment whether error tracking starts, and with which
/// options: the data source name as configured; the environment and the
/// release as configured, or else `production` and the default release of the
/// build of version `version`; stack traces attached; personal data sent only
/// where that is switched on.
pub fn init_sentry(variables: SentryVariables, version: &str) -> (r: Option<SentryOptions>)
    ensures
        r is Some <==> tracking_enabled(variables.disabled, variables.dsn),
        r is Some ==> {
            let options = r->0;
            &&& options.dsn == variables.dsn->0
            &&& options.environment@ == match variables.environment {
                Some(e) => e@,
                None => default_environment(),
            }
            &&& options.release@ == match variables.release {
                Some(s) => s@,
                None => default_release(version@),
            }
            &&& options.traces_sample_rate == variables.traces_sample_rate
            &&& options.attach_stacktrace
            &&& options.send_default_pii == is_set(variables.send_default_pii)
        },
{
    if setting_is_set(&variables.disabled) {
        return None;
    }
    if !setting_is_given(&variables.dsn) {
        return None;
    }
    let send_default_pii = setting_is_set(&variables.send_default_pii);
    let dsn = match variables.dsn {
        Some(dsn) => dsn,
        None => {
            return None;
        },
    };
    let environment = match variables.environment {
        Some(environment) => environment,
        None => String::from_str("production"),
    };
    let release = match variables.release {
        Some(release) => release,
        None => String::from_str("terminator-mcp-agent@").concat(version),
    };
    Some(
        SentryOptions {
            dsn,
            release,
            environment,
            traces_sample_rate: variables.traces_sample_rate,
            attach_stacktrace: true,
            send_default_pii,
        },
    )
}

/// What is known of the machine and the deployment when error tracking
/// starts.
pub struct ScopeFacts {
    /// The version of the build.
    pub version: String,
    /// The name of the host, where it could be had as text.
    pub hostname: Option<String>,
    /// The operating system.
    pub platform: String,
    /// The processor architecture.
    pub arch: String,
    /// `SENTRY_DEPLOYMENT_TYPE`
    pub deployment_type: Option<String>,
    /// `AZURE_VM_NAME`
    pub vm_name: Option<String>,
    /// `AZURE_RESOURCE_GROUP`
    pub resource_group: Option<String>,
    /// `AZURE_VM_PURPOSE`
    pub vm_purpose: Option<String>,
    /// `ORGANIZATION_ID`
    pub organization_id: Option<String>,
}

/// A tag: a key and a value.
pub type TagText = (Seq<char>, Seq<char>);

/// The texts of a list of tags.
pub open spec fn tag_texts(tags: Seq<(String, String)>) -> Seq<TagText> {
    Seq::new(tags.len(), |i: int| (tags[i].0@, tags[i].1@))
}

/// The tag `key` with the value of a setting, if the setting is there.
pub open spec fn tag_if_present(key: Seq<char>, value: Option<String>) -> Seq<TagText> {
    match value {
        Some(v) => seq![(key, v@)],
        None => seq![],
    }
}

/// The tags that every event carries, in the order in which they are set: the
/// server and its version, the host name if it is known, the platform and the
/// architecture, the deployment type, the name, resource group and purpose of
/// the virtual machine as far as they are configured, and the organization if
/// it is configured and not empty.
pub open spec fn tags_of(facts: ScopeFacts) -> Seq<TagText> {
    seq![("server"@, "terminator-mcp-agent"@), ("version"@, facts.version@)] + tag_if_present(
        "hostname"@,
        facts.hostname,
    ) + seq![("platform"@, facts.platform@), ("arch"@, facts.arch@)] + tag_if_present(
        "deployment_type"@,
        facts.deployment_type,
    ) + tag_if_present("vm_name"@, facts.vm_name) + tag_if_present(
        "resource_group"@,
        facts.resource_group,
    ) + tag_if_present("vm_purpose"@, facts.vm_purpose) + if is_given(facts.organization_id) {
        tag_if_present("organization_id"@, facts.organization_id)
    } else {
        seq![]
    }
}

/// Adds the tag `key` with the value `value`.
fn push_tag(tags: &mut Vec<(String, String)>, key: &str, value: String)
    ensures
        tag_texts(final(tags)@) == tag_texts(old(tags)@) + seq![(key@, value@)],
{
    tags.push((String::from_str(key), value));
    assert(tag_texts(tags@) =~= tag_texts(old(tags)@) + seq![(key@, value@)]);
}

/// Adds the tag `key` with the value of a setting, if the setting is there.
fn push_tag_if_present(tags: &mut Vec<(String, String)>, key: &str, value: Option<String>)
    ensures
        tag_texts(final(tags)@) == tag_texts(old(tags)@) + tag_if_present(key@, value),
{
    match value {
        Some(v) => push_tag(tags, key, v),
        None => {
            assert(tag_texts(tags@) + Seq::<TagText>::empty() =~= tag_texts(tags@));
        },
    }
}

/// The tags that every event carries.
pub fn scope_tags(facts: ScopeFacts) -> (r: Vec<(String, String)>)
    ensures
        tag_texts(r@) == tags_of(facts),
{
    let mut tags: Vec<(String, String)> = Vec::new();
    assert(tag_texts(tags@) =~= Seq::<TagText>::empty());
    push_tag(&mut tags, "server", String::from_str("terminator-mcp-agent"));
    push_tag(&mut tags, "version", facts.version);
    push_tag_if_present(&mut tags, "hostname", facts.hostname);
    push_tag(&mut tags, "platform", facts.platform);
    push_tag(&mut tags, "arch", facts.arch);
    push_tag_if_present(&mut tags, "deployment_type", facts.deployment_type);
    push_tag_if_present(&mut tags, "vm_name", facts.vm_name);
    push_tag_if_present(&mut tags, "resource_group", facts.resource_group);
    push_tag_if_present(&mut tags, "vm_purpose", facts.vm_purpose);
    if setting_is_given(&facts.organization_id) {
        push_tag_if_present(&mut tags, "organization_id", facts.organization_id);
    } else {
        assert(tag_texts(tags@) + Seq::<TagText>::empty() =~= tag_texts(tags@));
    }
    proof {
        let a = seq![("server"@, "terminator-mcp-agent"@), ("version"@, facts.version@)];
        assert(Seq::<TagText>::empty() + seq![("server"@, "terminator-mcp-agent"@)] + seq![
            ("version"@, facts.version@),
        ] =~= a);
        let b = seq![("platform"@, facts.platform@), ("arch"@, facts.arch@)];
        let h = tag_if_present("hostname"@, facts.hostname);
        assert(a + h + seq![("platform"@, facts.platform@)] + seq![("arch"@, facts.arch@)] =~= a
            + h + b);
    }
    tags
}

/// Decides whether a tracing layer that forwards to error tracking is made:
/// under the conditions under which error tracking runs.
pub fn create_sentry_layer(disabled: &Option<String>, dsn: &Option<String>) -> (r: bool)
    ensures
        r == tracking_enabled(*disabled, *dsn),
{
    !setting_is_set(disabled) && setting_is_given(dsn)
}

/// The seconds that pending events are given to leave at shutdown.
pub const FLUSH_TIMEOUT_SECONDS: u64 = 2;

/// Decides what shutdown does: where a client is bound, it is closed, and its
/// pending events get `FLUSH_TIMEOUT_SECONDS` to leave; where none is, nothing
/// is done.
pub fn shutdown_sentry(client_bound: bool) -> (r: Option<u64>)
    ensures
        r == if client_bound {
            Some(FLUSH_TIMEOUT_SECONDS)
        } else {
            None
        },
{
    if client_bound {
        Some(FLUSH_TIMEOUT_SECONDS)
    } else {
        None
    }
}

/// How serious a breadcrumb is.
#[derive(Clone, Copy, Debug, PartialEq, Eq, Structural)]
pub enum Level {
    Debug,
    Info,
    Warning,
    Error,
    Fatal,
}

/// A note of an event that led up to an error.
pub struct Breadcrumb {
    pub message: Option<String>,
    pub category: Option<String>,
    pub level: Level,
}

/// The breadcrumb that records `message` under `category`: both as given, at
/// the level of information.
pub fn add_breadcrumb(message: String, category: String) -> (r: Breadcrumb)
    ensures
        r.message == Some(message),
        r.category == Some(category),
        r.level == Level::Info,
{
    Breadcrumb { message: Some(message), category: Some(category), level: Level::Info }
}

} // verus!
