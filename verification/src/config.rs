//! The probe configuration: named checks, each a list of numeric targets
//! with a timeout and a mode, validated from the raw parsed form.
use crate::addr::{addr_error_text, parse_target, target_spec, SocketAddr, SpecSocketAddr};
use crate::check::Mode;
use crate::exit;
use crate::text::{chars_of, is_dec_digit, is_dec_digit_char};
use vstd::prelude::*;
use vstd::utf8::{char_is_scalar, encode_scalar, encode_utf8};

verus! {

/// Longest check name, in bytes.
pub const NAME_MAX_LEN: usize = 64;

// ---------------------------------------------------------------- raw form

/// The `defaults` section.
#[derive(Clone, Copy, Debug, PartialEq, Eq, Structural)]
pub struct RawDefaults {
    pub timeout_ms: u64,
    pub mode: Mode,
}

/// One entry of the `checks` section, as written.
#[derive(Debug)]
pub enum RawCheck {
    Tcp { timeout_ms: Option<u64>, mode: Option<Mode>, targets: Vec<String> },
}

/// The configuration file, as written. As in the mapping it is read from,
/// its checks have distinct names and come in name order: that is the
/// type's invariant (`names_in_order`).
#[derive(Debug)]
pub struct RawConfig {
    defaults: RawDefaults,
    checks: Vec<(String, RawCheck)>,
}

pub struct SpecRawCheck {
    pub timeout_ms: Option<u64>,
    pub mode: Option<Mode>,
    pub targets: Seq<Seq<char>>,
}

pub struct SpecRawConfig {
    pub defaults: RawDefaults,
    pub checks: Seq<(Seq<char>, SpecRawCheck)>,
}

impl View for RawCheck {
    type V = SpecRawCheck;

    open spec fn view(&self) -> SpecRawCheck {
        match self {
            RawCheck::Tcp { timeout_ms, mode, targets } => SpecRawCheck {
                timeout_ms: *timeout_ms,
                mode: *mode,
                targets: targets@.map_values(|t: String| t@),
            },
        }
    }
}

/// The names and checks of a list of raw entries.
pub open spec fn raw_entries(v: Seq<(String, RawCheck)>) -> Seq<(Seq<char>, SpecRawCheck)> {
    v.map_values(|e: (String, RawCheck)| (e.0@, e.1@))
}

impl View for RawConfig {
    type V = SpecRawConfig;

    closed spec fn view(&self) -> SpecRawConfig {
        SpecRawConfig { defaults: self.defaults, checks: raw_entries(self.checks@) }
    }
}

impl RawConfig {
    #[verifier::type_invariant]
    closed spec fn wf(self) -> bool {
        names_in_order(raw_entries(self.checks@))
    }

    /// The raw configuration with these defaults and checks, when the checks
    /// have distinct names in name order; otherwise `None`.
    pub fn new(defaults: RawDefaults, checks: Vec<(String, RawCheck)>) -> (r: Option<RawConfig>)
        ensures
            match r {
                Some(c) => c@ == SpecRawConfig { defaults, checks: raw_entries(checks@) },
                None => !names_in_order(raw_entries(checks@)),
            },
    {
        let ghost es = raw_entries(checks@);
        let mut i: usize = 1;
        while i < checks.len()
            invariant
                1 <= i,
                es == raw_entries(checks@),
                forall|a: int, b: int| 0 <= a < b < i && b < es.len() ==> name_less(es[a].0, es[b].0),
            decreases checks.len() - i,
        {
            assert(es[i - 1].0 == checks@[i - 1].0@);
            assert(es[i as int].0 == checks@[i as int].0@);
            if !name_less_str(checks[i - 1].0.as_str(), checks[i].0.as_str()) {
                assert(!name_less(es[i - 1].0, es[i as int].0));
                return None;
            }
            proof {
                assert forall|a: int, b: int| 0 <= a < b < i + 1 && b < es.len() implies name_less(
                    es[a].0,
                    es[b].0,
                ) by {
                    if b == i && a < i - 1 {
                        lemma_name_less_transitive(es[a].0, es[i - 1].0, es[i as int].0);
                    }
                }
            }
            i += 1;
        }
        Some(RawConfig { defaults, checks })
    }

    /// The defaults and the checks.
    pub fn into_parts(self) -> (r: (RawDefaults, Vec<(String, RawCheck)>))
        ensures
            self@ == (SpecRawConfig { defaults: r.0, checks: raw_entries(r.1@) }),
            names_in_order(raw_entries(r.1@)),
    {
        proof {
            use_type_invariant(&self);
        }
        (self.defaults, self.checks)
    }
}

/// The default timeout, in milliseconds.
pub fn default_timeout_ms() -> (t: u64)
    ensures
        t == 1000,
{
    1000
}

impl Default for RawDefaults {
    fn default() -> (d: Self)
        ensures
            d.timeout_ms == 1000,
            d.mode == Mode::All,
    {
        RawDefaults { timeout_ms: default_timeout_ms(), mode: Mode::All }
    }
}

// ---------------------------------------------------------------- validated form

/// What a check does.
#[derive(Debug)]
pub enum CheckKind {
    Tcp { targets: Vec<SocketAddr>, timeout_ms: u64, mode: Mode },
}

/// A validated check.
#[derive(Debug)]
pub struct Check {
    pub kind: CheckKind,
}

/// A validated configuration; the checks keep the names and the order of the
/// raw form, so they stay in name order when the raw form was.
#[derive(Debug)]
pub struct Config {
    pub checks: Vec<(String, Check)>,
}

pub struct SpecCheck {
    pub targets: Seq<SpecSocketAddr>,
    pub timeout_ms: u64,
    pub mode: Mode,
}

impl View for Check {
    type V = SpecCheck;

    open spec fn view(&self) -> SpecCheck {
        match &self.kind {
            CheckKind::Tcp { targets, timeout_ms, mode } => SpecCheck {
                targets: targets@.map_values(|a: SocketAddr| a@),
                timeout_ms: *timeout_ms,
                mode: *mode,
            },
        }
    }
}

impl View for Config {
    type V = Seq<(Seq<char>, SpecCheck)>;

    open spec fn view(&self) -> Seq<(Seq<char>, SpecCheck)> {
        self.checks@.map_values(|e: (String, Check)| (e.0@, e.1@))
    }
}

// ---------------------------------------------------------------- errors

/// Why a configuration could not be loaded.
#[derive(Debug)]
pub enum ConfigError {
    NotReadable(String),
    Parse(String),
    Validation(String),
}

pub enum SpecConfigError {
    NotReadable(Seq<char>),
    Parse(Seq<char>),
    Validation(Seq<char>),
}

impl View for ConfigError {
    type V = SpecConfigError;

    open spec fn view(&self) -> SpecConfigError {
        match self {
            ConfigError::NotReadable(m) => SpecConfigError::NotReadable(m@),
            ConfigError::Parse(m) => SpecConfigError::Parse(m@),
            ConfigError::Validation(m) => SpecConfigError::Validation(m@),
        }
    }
}

pub open spec fn config_error_text(e: SpecConfigError) -> Seq<char> {
    match e {
        SpecConfigError::NotReadable(m) => "config not readable: "@ + m,
        SpecConfigError::Parse(m) => "config parse error: "@ + m,
        SpecConfigError::Validation(m) => "config validation error: "@ + m,
    }
}

pub open spec fn config_exit_code(e: SpecConfigError) -> u8 {
    match e {
        SpecConfigError::NotReadable(_) => exit::CONFIG_NOT_READABLE,
        SpecConfigError::Parse(_) => exit::CONFIG_PARSE_ERROR,
        SpecConfigError::Validation(_) => exit::CONFIG_VALIDATION_ERROR,
    }
}

fn concat2(a: &str, b: &str) -> (s: String)
    ensures
        s@ == a@ + b@,
{
    let mut s = a.to_string();
    s.append(b);
    s
}

fn concat3(a: &str, b: &str, c: &str) -> (s: String)
    ensures
        s@ == a@ + b@ + c@,
{
    let mut s = a.to_string();
    s.append(b);
    s.append(c);
    s
}

impl ConfigError {
    /// The process exit code for this error.
    pub fn exit_code(&self) -> (code: u8)
        ensures
            code == config_exit_code(self@),
    {
        match self {
            ConfigError::NotReadable(_) => exit::CONFIG_NOT_READABLE,
            ConfigError::Parse(_) => exit::CONFIG_PARSE_ERROR,
            ConfigError::Validation(_) => exit::CONFIG_VALIDATION_ERROR,
        }
    }

    /// The text shown for this error.
    pub fn message(&self) -> (s: String)
        ensures
            s@ == config_error_text(self@),
    {
        match self {
            ConfigError::NotReadable(m) => concat2("config not readable: ", m.as_str()),
            ConfigError::Parse(m) => concat2("config parse error: ", m.as_str()),
            ConfigError::Validation(m) => concat2("config validation error: ", m.as_str()),
        }
    }
}

/// `a` comes before `b` in the order of a map keyed by strings: character by
/// character by code point (which is also the order of their UTF-8 bytes),
/// and a proper prefix first.
pub open spec fn name_less(a: Seq<char>, b: Seq<char>) -> bool
    decreases a.len(),
{
    if a.len() == 0 {
        b.len() > 0
    } else if b.len() == 0 {
        false
    } else if a[0] != b[0] {
        a[0] < b[0]
    } else {
        name_less(a.drop_first(), b.drop_first())
    }
}

/// The entries' names are strictly increasing, so no name occurs twice.
pub open spec fn names_in_order<T>(es: Seq<(Seq<char>, T)>) -> bool {
    forall|i: int, j: int| 0 <= i < j < es.len() ==> name_less(es[i].0, es[j].0)
}

proof fn lemma_name_less_irreflexive(a: Seq<char>)
    ensures
        !name_less(a, a),
    decreases a.len(),
{
    if a.len() > 0 {
        lemma_name_less_irreflexive(a.drop_first());
    }
}

/// Entries in name order never share a name.
pub proof fn lemma_ordered_names_are_distinct<T>(es: Seq<(Seq<char>, T)>)
    requires
        names_in_order(es),
    ensures
        forall|i: int, j: int| 0 <= i < es.len() && 0 <= j < es.len() && i != j ==> es[i].0 != es[j].0,
{
    assert forall|i: int, j: int| 0 <= i < es.len() && 0 <= j < es.len() && i != j implies es[i].0
        != es[j].0 by {
        lemma_name_less_irreflexive(es[i].0);
        if i < j {
            assert(name_less(es[i].0, es[j].0));
        } else {
            assert(name_less(es[j].0, es[i].0));
        }
    }
}

proof fn lemma_name_less_transitive(a: Seq<char>, b: Seq<char>, c: Seq<char>)
    requires
        name_less(a, b),
        name_less(b, c),
    ensures
        name_less(a, c),
    decreases a.len(),
{
    if a.len() > 0 && b.len() > 0 && c.len() > 0 && a[0] == b[0] && b[0] == c[0] {
        lemma_name_less_transitive(a.drop_first(), b.drop_first(), c.drop_first());
    }
}

/// Whether `a` comes before `b` in name order.
pub fn name_less_str(a: &str, b: &str) -> (r: bool)
    ensures
        r == name_less(a@, b@),
        r == lexicographically_before(a@, b@),
{
    proof {
        lemma_name_less_is_lexicographic(a@, b@);
    }
    let x = chars_of(a);
    let y = chars_of(b);
    let mut i: usize = 0;
    assert(x@.skip(0) == x@);
    assert(y@.skip(0) == y@);
    loop
        invariant
            i <= x.len(),
            i <= y.len(),
            x@ == a@,
            y@ == b@,
            name_less(a@, b@) == name_less(x@.skip(i as int), y@.skip(i as int)),
            name_less(a@, b@) == lexicographically_before(a@, b@),
        decreases x.len() - i,
    {
        if i == x.len() {
            return i < y.len();
        }
        if i == y.len() {
            return false;
        }
        assert(x@.skip(i as int)[0] == x@[i as int]);
        assert(y@.skip(i as int)[0] == y@[i as int]);
        if x[i] != y[i] {
            return x[i] < y[i];
        }
        assert(x@.skip(i as int).drop_first() == x@.skip(i + 1));
        assert(y@.skip(i as int).drop_first() == y@.skip(i + 1));
        i += 1;
    }
}

// ---------------------------------------------------------------- YAML

/// A YAML document as `serde_yaml` reads it; opaque here, it is only
/// carried on to deserialisation.
#[verifier::external_type_specification]
#[verifier::external_body]
pub struct ExYamlValue(serde_yaml::Value);

/// Whether `serde_yaml` reads `text` as a YAML document; this depends on the
/// text alone.
pub uninterp spec fn yaml_readable(text: Seq<char>) -> bool;

/// How `serde_yaml` describes what is wrong with `text`, when it reads no
/// document from it.
pub uninterp spec fn yaml_parse_message(text: Seq<char>) -> Seq<char>;

/// Calls `serde_yaml::from_str::<serde_yaml::Value>` and, on failure, the
/// error's `Display` (through `to_string`). Claimed: the call succeeds
/// exactly when `yaml_readable(text@)`, and the description of a failure is
/// `yaml_parse_message(text@)`, both determined by the text alone. Nothing
/// is claimed of the document: its mappings are hash maps with randomly
/// seeded hashers, so two reads of one text give different values.
#[verifier::external_body]
fn yaml_from_str(text: &str) -> (r: Result<serde_yaml::Value, String>)
    ensures
        r is Ok <==> yaml_readable(text@),
        r matches Err(m) ==> m@ == yaml_parse_message(text@),
{
    serde_yaml::from_str::<serde_yaml::Value>(text).map_err(|e| e.to_string())
}

/// Reads the text of a configuration file as a YAML document; text that is
/// not YAML is a parse error, described by `serde_yaml`.
pub fn parse_config_text(text: &str) -> (r: Result<serde_yaml::Value, ConfigError>)
    ensures
        r is Ok <==> yaml_readable(text@),
        r matches Err(e) ==> e@ == SpecConfigError::Parse(yaml_parse_message(text@)),
{
    match yaml_from_str(text) {
        Ok(v) => Ok(v),
        Err(m) => Err(ConfigError::Parse(m)),
    }
}

// ---------------------------------------------------------------- rules

/// A timeout, in milliseconds, must lie in 1..=60000.
pub open spec fn timeout_ok(t: u64) -> bool {
    1 <= t <= 60000
}

pub open spec fn timeout_message(field: Seq<char>) -> Seq<char> {
    field + " must be in 1..=60000"@
}

pub open spec fn is_name_start(c: char) -> bool {
    ('a' <= c && c <= 'z') || is_dec_digit(c)
}

pub open spec fn is_name_char(c: char) -> bool {
    is_name_start(c) || c == '-'
}

/// `[a-z0-9][a-z0-9-]*`
pub open spec fn name_pattern(name: Seq<char>) -> bool {
    &&& name.len() > 0
    &&& is_name_start(name[0])
    &&& forall|i: int| 1 <= i < name.len() ==> is_name_char(#[trigger] name[i])
}

/// Why a check name is refused, if it is: it is empty, longer than 64 bytes
/// in UTF-8, or does not match `[a-z0-9][a-z0-9-]*`.
pub open spec fn name_error(name: Seq<char>) -> Option<Seq<char>> {
    if name.len() == 0 {
        Some("check name cannot be empty"@)
    } else if encode_utf8(name).len() > NAME_MAX_LEN {
        Some("check name '"@ + name + "' exceeds 64 chars"@)
    } else if !name_pattern(name) {
        Some("check name '"@ + name + "' must match [a-z0-9][a-z0-9-]*"@)
    } else {
        None
    }
}

pub open spec fn target_message(name: Seq<char>, target: Seq<char>, e: crate::addr::AddrError) -> Seq<char> {
    "checks."@ + name + ".targets contains invalid target '"@ + target + "': "@ + addr_error_text(e)
}

/// The addresses of a check's targets, or the message for the first target
/// that is not a valid numeric target.
pub open spec fn targets_spec(name: Seq<char>, ts: Seq<Seq<char>>) -> Result<Seq<SpecSocketAddr>, Seq<char>>
    decreases ts.len(),
{
    if ts.len() == 0 {
        Ok(Seq::empty())
    } else {
        match targets_spec(name, ts.drop_last()) {
            Err(m) => Err(m),
            Ok(addrs) => match target_spec(ts.last()) {
                Err(e) => Err(target_message(name, ts.last(), e)),
                Ok(a) => Ok(addrs.push(a)),
            },
        }
    }
}

/// The validated form of one check, or the message for the first rule it
/// breaks: its name, then that it has targets, then its timeout (its own or
/// the default), then each target in turn. The mode is its own or the default.
pub open spec fn check_spec(d: RawDefaults, name: Seq<char>, rc: SpecRawCheck) -> Result<SpecCheck, Seq<char>> {
    let timeout = match rc.timeout_ms {
        Some(t) => t,
        None => d.timeout_ms,
    };
    let mode = match rc.mode {
        Some(m) => m,
        None => d.mode,
    };
    if name_error(name) is Some {
        Err(name_error(name).unwrap())
    } else if rc.targets.len() == 0 {
        Err("check '"@ + name + "' has no targets"@)
    } else if !timeout_ok(timeout) {
        Err(timeout_message("checks."@ + name + ".timeout_ms"@))
    } else {
        match targets_spec(name, rc.targets) {
            Err(m) => Err(m),
            Ok(addrs) => Ok(SpecCheck { targets: addrs, timeout_ms: timeout, mode }),
        }
    }
}

/// The validated checks, or the message for the first check that is refused.
pub open spec fn checks_spec(d: RawDefaults, es: Seq<(Seq<char>, SpecRawCheck)>) -> Result<Seq<(Seq<char>, SpecCheck)>, Seq<char>>
    decreases es.len(),
{
    if es.len() == 0 {
        Ok(Seq::empty())
    } else {
        match checks_spec(d, es.drop_last()) {
            Err(m) => Err(m),
            Ok(cs) => match check_spec(d, es.last().0, es.last().1) {
                Err(m) => Err(m),
                Ok(c) => Ok(cs.push((es.last().0, c))),
            },
        }
    }
}

/// The validated configuration, or the message for the first rule broken:
/// the default timeout first, then the checks in order.
pub open spec fn validate_spec(raw: SpecRawConfig) -> Result<Seq<(Seq<char>, SpecCheck)>, Seq<char>> {
    if !timeout_ok(raw.defaults.timeout_ms) {
        Err(timeout_message("defaults.timeout_ms"@))
    } else {
        checks_spec(raw.defaults, raw.checks)
    }
}


/// Looks a check up by name; the first entry with that name counts.
pub open spec fn lookup(cs: Seq<(Seq<char>, SpecCheck)>, name: Seq<char>) -> Option<SpecCheck>
    decreases cs.len(),
{
    if cs.len() == 0 {
        None
    } else if cs[0].0 == name {
        Some(cs[0].1)
    } else {
        lookup(cs.drop_first(), name)
    }
}

// ---------------------------------------------------------------- checking

/// Refuses a timeout outside 1..=60000 milliseconds, naming `field`.
pub fn validate_timeout(timeout_ms: u64, field: &str) -> (r: Result<(), ConfigError>)
    ensures
        match r {
            Ok(()) => timeout_ok(timeout_ms),
            Err(e) => !timeout_ok(timeout_ms) && e@ == SpecConfigError::Validation(
                timeout_message(field@),
            ),
        },
        r is Ok <==> 1 <= timeout_ms && timeout_ms <= 60000,
{
    if !(1 <= timeout_ms && timeout_ms <= 60000) {
        return Err(ConfigError::Validation(concat2(field, " must be in 1..=60000")));
    }
    Ok(())
}

/// The number of bytes of the UTF-8 encoding of `c`.
fn utf8_width(c: char) -> (w: usize)
    ensures
        w == encode_scalar(c as u32).len(),
        1 <= w <= 4,
{
    proof {
        char_is_scalar(c);
    }
    let v = c as u32;
    if v <= 0x7f {
        1
    } else if v <= 0x7ff {
        2
    } else if v <= 0xffff {
        3
    } else {
        4
    }
}

proof fn lemma_encode_suffix_grows(s: Seq<char>, j: int, i: int)
    requires
        0 <= j <= i <= s.len(),
    ensures
        encode_utf8(s.subrange(j, s.len() as int)).len() >= encode_utf8(
            s.subrange(i, s.len() as int),
        ).len(),
    decreases i - j,
{
    if j < i {
        lemma_encode_suffix_grows(s, j + 1, i);
        assert(s.subrange(j, s.len() as int).drop_first() == s.subrange(j + 1, s.len() as int));
    }
}

/// Whether the UTF-8 encoding of `s` is longer than `limit` bytes.
fn utf8_longer_than(s: &Vec<char>, limit: usize) -> (b: bool)
    requires
        limit <= NAME_MAX_LEN,
    ensures
        b == (encode_utf8(s@).len() > limit),
{
    let n = s.len();
    let mut i = n;
    let mut total: usize = 0;
    assert(s@.subrange(n as int, n as int) == Seq::<char>::empty());
    while i > 0
        invariant
            i <= n == s.len(),
            limit <= NAME_MAX_LEN,
            total == encode_utf8(s@.subrange(i as int, n as int)).len(),
            total <= limit,
        decreases i,
    {
        let w = utf8_width(s[i - 1]);
        assert(s@.subrange(i - 1, n as int).drop_first() == s@.subrange(i as int, n as int));
        assert(s@.subrange(i - 1, n as int)[0] == s@[i - 1]);
        if total + w > limit {
            proof {
                lemma_encode_suffix_grows(s@, 0, i - 1);
                assert(s@.subrange(0, n as int) == s@);
            }
            return true;
        }
        total = total + w;
        i -= 1;
    }
    assert(s@.subrange(0, n as int) == s@);
    false
}

/// Refuses a check name that is empty, longer than 64 bytes, or does not
/// match `[a-z0-9][a-z0-9-]*`.
pub fn validate_name(name: &str) -> (r: Result<(), ConfigError>)
    ensures
        match r {
            Ok(()) => name_error(name@) is None,
            Err(e) => name_error(name@) is Some && e@ == SpecConfigError::Validation(
                name_error(name@).unwrap(),
            ),
        },
        r is Ok <==> name_literally_ok(name@),
{
    proof {
        lemma_name_error_literal(name@);
    }
    let cs = chars_of(name);
    if cs.len() == 0 {
        return Err(ConfigError::Validation("check name cannot be empty".to_string()));
    }
    if utf8_longer_than(&cs, NAME_MAX_LEN) {
        return Err(ConfigError::Validation(concat3("check name '", name, "' exceeds 64 chars")));
    }
    let first = cs[0];
    let mut ok = ('a' <= first && first <= 'z') || is_dec_digit_char(first);
    let mut i: usize = 1;
    while ok && i < cs.len()
        invariant
            1 <= i <= cs.len(),
            cs@ == name@,
            ok == (is_name_start(cs@[0]) && forall|k: int| 1 <= k < i ==> is_name_char(#[trigger] cs@[k])),
        decreases cs.len() - i,
    {
        let c = cs[i];
        if !(('a' <= c && c <= 'z') || is_dec_digit_char(c) || c == '-') {
            ok = false;
        }
        i += 1;
    }
    if !ok {
        return Err(
            ConfigError::Validation(
                concat3("check name '", name, "' must match [a-z0-9][a-z0-9-]*"),
            ),
        );
    }
    Ok(())
}

/// Parses every target of the check `name`, stopping at the first one that
/// is refused.
fn validate_targets(name: &str, targets: &Vec<String>) -> (r: Result<Vec<SocketAddr>, ConfigError>)
    ensures
        match r {
            Ok(addrs) => targets_spec(name@, targets@.map_values(|t: String| t@)) == Ok::<
                Seq<SpecSocketAddr>,
                Seq<char>,
            >(addrs@.map_values(|a: SocketAddr| a@)),
            Err(e) => targets_spec(name@, targets@.map_values(|t: String| t@)) is Err
                && e@ == SpecConfigError::Validation(
                targets_spec(name@, targets@.map_values(|t: String| t@))->Err_0,
            ),
        },
{
    let ghost tv = targets@.map_values(|t: String| t@);
    let mut out: Vec<SocketAddr> = Vec::new();
    let mut i: usize = 0;
    assert(tv.take(0) =~= Seq::<Seq<char>>::empty());
    assert(out@.map_values(|a: SocketAddr| a@) =~= Seq::<SpecSocketAddr>::empty());
    while i < targets.len()
        invariant
            0 <= i <= targets.len(),
            tv == targets@.map_values(|t: String| t@),
            targets_spec(name@, tv.take(i as int)) == Ok::<Seq<SpecSocketAddr>, Seq<char>>(
                out@.map_values(|a: SocketAddr| a@),
            ),
        decreases targets.len() - i,
    {
        let target = &targets[i];
        assert(tv.take(i + 1).drop_last() == tv.take(i as int));
        assert(tv.take(i + 1).last() == target@);
        let parsed = parse_target(target.as_str());
        match parsed {
            Ok(a) => {
                let ghost before = out@.map_values(|a: SocketAddr| a@);
                out.push(a);
                assert(out@.map_values(|a: SocketAddr| a@) =~= before.push(a@));
            },
            Err(e) => {
                let mut m = concat3("checks.", name, ".targets contains invalid target '");
                m.append(target.as_str());
                m.append("': ");
                let em = e.message();
                m.append(em.as_str());
                assert(m@ == target_message(name@, target@, e));
                proof {
                    lemma_targets_error_persists(name@, tv, i as int + 1);
                }
                return Err(ConfigError::Validation(m));
            },
        }
        i += 1;
    }
    assert(tv.take(i as int) == tv);
    Ok(out)
}

/// Once a prefix of the targets is refused, so is every longer prefix, with
/// the same message.
proof fn lemma_targets_error_persists(name: Seq<char>, ts: Seq<Seq<char>>, i: int)
    requires
        0 <= i <= ts.len(),
        targets_spec(name, ts.take(i)) is Err,
    ensures
        targets_spec(name, ts) == targets_spec(name, ts.take(i)),
    decreases ts.len() - i,
{
    if i < ts.len() {
        assert(ts.take(i + 1).drop_last() == ts.take(i));
        lemma_targets_error_persists(name, ts, i + 1);
    } else {
        assert(ts.take(i) == ts);
    }
}

/// Once a prefix of the checks is refused, so is every longer prefix, with
/// the same message.
proof fn lemma_checks_error_persists(d: RawDefaults, es: Seq<(Seq<char>, SpecRawCheck)>, i: int)
    requires
        0 <= i <= es.len(),
        checks_spec(d, es.take(i)) is Err,
    ensures
        checks_spec(d, es) == checks_spec(d, es.take(i)),
    decreases es.len() - i,
{
    if i < es.len() {
        assert(es.take(i + 1).drop_last() == es.take(i));
        lemma_checks_error_persists(d, es, i + 1);
    } else {
        assert(es.take(i) == es);
    }
}

/// Validates one check.
fn validate_check(d: RawDefaults, name: &String, rc: &RawCheck) -> (r: Result<Check, ConfigError>)
    ensures
        match r {
            Ok(c) => check_spec(d, name@, rc@) == Ok::<SpecCheck, Seq<char>>(c@),
            Err(e) => check_spec(d, name@, rc@) is Err && e@ == SpecConfigError::Validation(
                check_spec(d, name@, rc@)->Err_0,
            ),
        },
{
    validate_name(name.as_str())?;
    match rc {
        RawCheck::Tcp { timeout_ms, mode, targets } => {
            if targets.len() == 0 {
                return Err(
                    ConfigError::Validation(concat3("check '", name.as_str(), "' has no targets")),
                );
            }
            let timeout = match timeout_ms {
                Some(t) => *t,
                None => d.timeout_ms,
            };
            let field = concat3("checks.", name.as_str(), ".timeout_ms");
            validate_timeout(timeout, field.as_str())?;
            let mode = match mode {
                Some(m) => *m,
                None => d.mode,
            };
            let addrs = validate_targets(name.as_str(), targets)?;
            Ok(Check { kind: CheckKind::Tcp { targets: addrs, timeout_ms: timeout, mode } })
        },
    }
}

/// Turns the raw configuration into checks that can be run, refusing it at
/// the first rule it breaks: the default timeout, then each check in order
/// (its name, that it has targets, its timeout, then each target).
pub fn validate(raw: RawConfig) -> (r: Result<Config, ConfigError>)
    ensures
        match r {
            Ok(c) => validate_spec(raw@) == Ok::<Seq<(Seq<char>, SpecCheck)>, Seq<char>>(c@)
                && names_in_order(c@) && c@.len() == raw@.checks.len() && forall|i: int|
                0 <= i < c@.len() ==> {
                    &&& (#[trigger] c@[i]).0 == raw@.checks[i].0
                    &&& name_literally_ok(c@[i].0)
                    &&& c@[i].1.mode == (match raw@.checks[i].1.mode {
                        Some(m) => m,
                        None => raw@.defaults.mode,
                    })
                    &&& c@[i].1.timeout_ms == (match raw@.checks[i].1.timeout_ms {
                        Some(t) => t,
                        None => raw@.defaults.timeout_ms,
                    })
                    &&& 1 <= c@[i].1.timeout_ms && c@[i].1.timeout_ms <= 60000
                },
            Err(e) => validate_spec(raw@) is Err && e@ == SpecConfigError::Validation(
                validate_spec(raw@)->Err_0,
            ),
        },
{
    proof {
        use_type_invariant(&raw);
    }
    validate_timeout(raw.defaults.timeout_ms, "defaults.timeout_ms")?;
    let ghost es = raw@.checks;
    let d = raw.defaults;
    let mut checks: Vec<(String, Check)> = Vec::new();
    let mut i: usize = 0;
    assert(es.take(0) =~= Seq::<(Seq<char>, SpecRawCheck)>::empty());
    assert(checks@.map_values(|e: (String, Check)| (e.0@, e.1@)) =~= Seq::<
        (Seq<char>, SpecCheck),
    >::empty());
    while i < raw.checks.len()
        invariant
            0 <= i <= raw.checks.len(),
            d == raw.defaults,
            timeout_ok(d.timeout_ms),
            es == raw@.checks,
            es.len() == raw.checks.len(),
            checks_spec(d, es.take(i as int)) == Ok::<Seq<(Seq<char>, SpecCheck)>, Seq<char>>(
                checks@.map_values(|e: (String, Check)| (e.0@, e.1@)),
            ),
        decreases raw.checks.len() - i,
    {
        let entry = &raw.checks[i];
        assert(es.take(i + 1).drop_last() == es.take(i as int));
        assert(es.take(i + 1).last() == (entry.0@, entry.1@));
        match validate_check(d, &entry.0, &entry.1) {
            Ok(c) => {
                let ghost before = checks@.map_values(|e: (String, Check)| (e.0@, e.1@));
                let name = entry.0.clone();
                checks.push((name, c));
                assert(checks@.map_values(|e: (String, Check)| (e.0@, e.1@)) =~= before.push(
                    (entry.0@, c@),
                ));
            },
            Err(e) => {
                proof {
                    assert(checks_spec(d, es.take(i + 1)) == Err::<
                        Seq<(Seq<char>, SpecCheck)>,
                        Seq<char>,
                    >(check_spec(d, entry.0@, entry.1@)->Err_0));
                    lemma_checks_error_persists(d, es, i as int + 1);
                }
                return Err(e);
            },
        }
        i += 1;
    }
    assert(es.take(i as int) == es);
    proof {
        lemma_validated_checks(raw@);
    }
    Ok(Config { checks })
}

impl Config {
    /// The check with the given name.
    pub fn get(&self, name: &str) -> (r: Option<&Check>)
        ensures
            match r {
                Some(c) => lookup(self@, name@) == Some(c@),
                None => lookup(self@, name@) is None,
            },
    {
        let key = name.to_string();
        let mut i: usize = 0;
        assert(self@.skip(0) == self@);
        while i < self.checks.len()
            invariant
                0 <= i <= self.checks.len(),
                key@ == name@,
                lookup(self@, name@) == lookup(self@.skip(i as int), name@),
            decreases self.checks.len() - i,
        {
            assert(self@.skip(i as int)[0] == self@[i as int]);
            assert(self@.skip(i as int).drop_first() == self@.skip(i + 1));
            if self.checks[i].0 == key {
                return Some(&self.checks[i].1);
            }
            i += 1;
        }
        None
    }

    /// The number of checks.
    pub fn len(&self) -> (n: usize)
        ensures
            n == self@.len(),
    {
        self.checks.len()
    }
}


// ---------------------------------------------------------------- laws

/// The timeout a check runs with: its own, or else the default.
pub open spec fn effective_timeout(d: RawDefaults, rc: SpecRawCheck) -> u64 {
    match rc.timeout_ms {
        Some(t) => t,
        None => d.timeout_ms,
    }
}

/// The mode a check runs with: its own, or else the default.
pub open spec fn effective_mode(d: RawDefaults, rc: SpecRawCheck) -> Mode {
    match rc.mode {
        Some(m) => m,
        None => d.mode,
    }
}

/// The rules a single check must obey.
pub open spec fn check_valid(d: RawDefaults, name: Seq<char>, rc: SpecRawCheck) -> bool {
    &&& name_error(name) is None
    &&& rc.targets.len() > 0
    &&& timeout_ok(effective_timeout(d, rc))
    &&& forall|j: int| 0 <= j < rc.targets.len() ==> (#[trigger] target_spec(rc.targets[j])) is Ok
}

/// How a validated check stands to the raw check it came from.
pub open spec fn check_from(d: RawDefaults, e: (Seq<char>, SpecRawCheck), c: (Seq<char>, SpecCheck)) -> bool {
    &&& c.0 == e.0
    &&& check_spec(d, e.0, e.1) == Ok::<SpecCheck, Seq<char>>(c.1)
    &&& name_pattern(c.0)
    &&& encode_utf8(c.0).len() <= NAME_MAX_LEN
    &&& c.1.timeout_ms == effective_timeout(d, e.1)
    &&& timeout_ok(c.1.timeout_ms)
    &&& c.1.mode == effective_mode(d, e.1)
    &&& c.1.targets.len() == e.1.targets.len()
    &&& c.1.targets.len() > 0
    &&& forall|j: int|
        0 <= j < c.1.targets.len() ==> target_spec(e.1.targets[j]) == Ok::<
            SpecSocketAddr,
            crate::addr::AddrError,
        >(#[trigger] c.1.targets[j]) && c.1.targets[j].port() != 0
}

proof fn lemma_targets_spec(name: Seq<char>, ts: Seq<Seq<char>>)
    ensures
        (targets_spec(name, ts) is Ok) <==> (forall|j: int|
            0 <= j < ts.len() ==> (#[trigger] target_spec(ts[j])) is Ok),
        targets_spec(name, ts) matches Ok(addrs) ==> addrs.len() == ts.len() && forall|j: int|
            0 <= j < ts.len() ==> target_spec(ts[j]) == Ok::<
                SpecSocketAddr,
                crate::addr::AddrError,
            >(#[trigger] addrs[j]) && addrs[j].port() != 0,
    decreases ts.len(),
{
    if ts.len() > 0 {
        let init = ts.drop_last();
        let n = ts.len() - 1;
        lemma_targets_spec(name, init);
        assert forall|j: int| 0 <= j < init.len() implies #[trigger] init[j] == ts[j] by {}
        match targets_spec(name, init) {
            Err(_) => {
                let j = choose|j: int| 0 <= j < init.len() && !(#[trigger] target_spec(init[j]) is Ok);
                assert(init[j] == ts[j]);
                assert(!(target_spec(ts[j]) is Ok));
            },
            Ok(prev) => {
                match target_spec(ts[n]) {
                    Err(_) => {},
                    Ok(a) => {
                        let addrs = prev.push(a);
                        assert(targets_spec(name, ts) == Ok::<Seq<SpecSocketAddr>, Seq<char>>(addrs));
                        crate::addr::lemma_accepted_port_nonzero(ts[n]);
                        assert forall|j: int| 0 <= j < ts.len() implies target_spec(ts[j]) == Ok::<
                            SpecSocketAddr,
                            crate::addr::AddrError,
                        >(#[trigger] addrs[j]) && addrs[j].port() != 0 by {
                            if j < n {
                                assert(init[j] == ts[j]);
                                assert(addrs[j] == prev[j]);
                            }
                        }
                        assert forall|j: int| 0 <= j < ts.len() implies (#[trigger] target_spec(
                            ts[j],
                        )) is Ok by {
                            assert(target_spec(ts[j]) == Ok::<
                                SpecSocketAddr,
                                crate::addr::AddrError,
                            >(addrs[j]));
                        }
                    },
                }
            },
        }
    }
}

proof fn lemma_check_spec(d: RawDefaults, name: Seq<char>, rc: SpecRawCheck)
    ensures
        (check_spec(d, name, rc) is Ok) <==> check_valid(d, name, rc),
        check_spec(d, name, rc) matches Ok(c) ==> check_from(d, (name, rc), (name, c)),
{
    lemma_targets_spec(name, rc.targets);
}

proof fn lemma_checks_spec(d: RawDefaults, es: Seq<(Seq<char>, SpecRawCheck)>)
    ensures
        (checks_spec(d, es) is Ok) <==> (forall|i: int|
            0 <= i < es.len() ==> check_valid(d, (#[trigger] es[i]).0, es[i].1)),
        checks_spec(d, es) matches Ok(cs) ==> cs.len() == es.len() && forall|i: int|
            0 <= i < es.len() ==> check_from(d, #[trigger] es[i], cs[i]),
    decreases es.len(),
{
    if es.len() > 0 {
        let init = es.drop_last();
        let n = es.len() - 1;
        lemma_checks_spec(d, init);
        lemma_check_spec(d, es[n].0, es[n].1);
        assert forall|i: int| 0 <= i < init.len() implies #[trigger] init[i] == es[i] by {}
        match checks_spec(d, init) {
            Err(_) => {
                let i = choose|i: int|
                    0 <= i < init.len() && !check_valid(d, (#[trigger] init[i]).0, init[i].1);
                assert(es[i] == init[i]);
            },
            Ok(prev) => {
                match check_spec(d, es[n].0, es[n].1) {
                    Err(_) => {
                        assert(!check_valid(d, es[n].0, es[n].1));
                    },
                    Ok(c) => {
                        assert forall|i: int| 0 <= i < es.len() implies check_valid(
                            d,
                            (#[trigger] es[i]).0,
                            es[i].1,
                        ) by {
                            if i < n {
                                assert(es[i] == init[i]);
                            }
                        }
                        let cs = prev.push((es[n].0, c));
                        assert(checks_spec(d, es) == Ok::<
                            Seq<(Seq<char>, SpecCheck)>,
                            Seq<char>,
                        >(cs));
                        assert forall|i: int| 0 <= i < es.len() implies check_from(
                            d,
                            #[trigger] es[i],
                            cs[i],
                        ) by {
                            if i < n {
                                assert(cs[i] == prev[i]);
                                assert(es[i] == init[i]);
                            }
                        }
                    },
                }
            },
        }
    }
}

/// A configuration is accepted exactly when its default timeout lies in
/// 1..=60000 ms and every check obeys the rules: a name matching
/// `[a-z0-9][a-z0-9-]*` of at most 64 bytes, at least one target, a timeout
/// (its own or the default) in 1..=60000 ms, and only valid numeric targets.
/// An accepted configuration keeps every check, in order, under its name,
/// with that timeout, its own mode or the default one, and the addresses of
/// its targets in order, none of them on port 0.
pub proof fn lemma_validation_accepts_exactly_valid_configs(raw: SpecRawConfig)
    ensures
        (validate_spec(raw) is Ok) <==> (timeout_ok(raw.defaults.timeout_ms) && forall|i: int|
            0 <= i < raw.checks.len() ==> check_valid(
                raw.defaults,
                (#[trigger] raw.checks[i]).0,
                raw.checks[i].1,
            )),
        validate_spec(raw) matches Ok(cs) ==> cs.len() == raw.checks.len() && forall|i: int|
            0 <= i < cs.len() ==> check_from(raw.defaults, #[trigger] raw.checks[i], cs[i]),
{
    lemma_checks_spec(raw.defaults, raw.checks);
}


proof fn lemma_lookup(cs: Seq<(Seq<char>, SpecCheck)>, name: Seq<char>)
    ensures
        (lookup(cs, name) is Some) <==> (exists|i: int| 0 <= i < cs.len() && (#[trigger] cs[i]).0 == name),
        lookup(cs, name) matches Some(c) ==> exists|i: int|
            0 <= i < cs.len() && #[trigger] cs[i] == (name, c) && forall|k: int|
                0 <= k < i ==> (#[trigger] cs[k]).0 != name,
    decreases cs.len(),
{
    if cs.len() > 0 {
        let t = cs.drop_first();
        lemma_lookup(t, name);
        if cs[0].0 == name {
            assert(cs[0] == (name, cs[0].1));
        } else {
            if exists|i: int| 0 <= i < cs.len() && (#[trigger] cs[i]).0 == name {
                let i = choose|i: int| 0 <= i < cs.len() && (#[trigger] cs[i]).0 == name;
                assert(t[i - 1] == cs[i]);
            }
            if exists|i: int| 0 <= i < t.len() && (#[trigger] t[i]).0 == name {
                let i = choose|i: int| 0 <= i < t.len() && (#[trigger] t[i]).0 == name;
                assert(cs[i + 1] == t[i]);
            }
            if let Some(c) = lookup(cs, name) {
                let i = choose|i: int|
                    0 <= i < t.len() && #[trigger] t[i] == (name, c) && forall|k: int|
                        0 <= k < i ==> (#[trigger] t[k]).0 != name;
                assert(cs[i + 1] == t[i]);
                assert forall|k: int| 0 <= k < i + 1 implies (#[trigger] cs[k]).0 != name by {
                    if k > 0 {
                        assert(cs[k] == t[k - 1]);
                    }
                }
            }
        }
    }
}

/// In an accepted configuration, a name finds a check exactly when the
/// configuration defines a check under that name, and what it finds is the
/// validated form of the first such definition.
pub proof fn lemma_checks_are_found_by_name(raw: SpecRawConfig, name: Seq<char>)
    ensures
        validate_spec(raw) matches Ok(cs) ==> {
            &&& (lookup(cs, name) is Some) <==> (exists|i: int|
                0 <= i < raw.checks.len() && (#[trigger] raw.checks[i]).0 == name)
            &&& lookup(cs, name) matches Some(c) ==> exists|i: int|
                0 <= i < raw.checks.len() && (#[trigger] raw.checks[i]).0 == name && check_spec(
                    raw.defaults,
                    name,
                    raw.checks[i].1,
                ) == Ok::<SpecCheck, Seq<char>>(c) && forall|k: int|
                    0 <= k < i ==> (#[trigger] raw.checks[k]).0 != name
        },
{
    lemma_validation_accepts_exactly_valid_configs(raw);
    if let Ok(cs) = validate_spec(raw) {
        lemma_lookup(cs, name);
        assert forall|i: int| 0 <= i < cs.len() implies (#[trigger] cs[i]).0 == raw.checks[i].0 by {
            assert(check_from(raw.defaults, raw.checks[i], cs[i]));
        }
        if exists|i: int| 0 <= i < raw.checks.len() && (#[trigger] raw.checks[i]).0 == name {
            let i = choose|i: int| 0 <= i < raw.checks.len() && (#[trigger] raw.checks[i]).0 == name;
            assert(cs[i].0 == name);
        }
        if let Some(c) = lookup(cs, name) {
            let i = choose|i: int|
                0 <= i < cs.len() && #[trigger] cs[i] == (name, c) && forall|k: int|
                    0 <= k < i ==> (#[trigger] cs[k]).0 != name;
            assert(check_from(raw.defaults, raw.checks[i], cs[i]));
            assert forall|k: int| 0 <= k < i implies (#[trigger] raw.checks[k]).0 != name by {
                assert(cs[k].0 != name);
            }
        }
    }
}

/// A check name as the rules spell it out: non-empty, at most 64 bytes in
/// UTF-8, only `a`..`z`, `0`..`9` and `-`, and not starting with `-`.
pub open spec fn name_literally_ok(name: Seq<char>) -> bool {
    &&& name.len() > 0
    &&& encode_utf8(name).len() <= 64
    &&& name[0] != '-'
    &&& forall|i: int|
        0 <= i < name.len() ==> ('a' <= #[trigger] name[i] && name[i] <= 'z') || ('0' <= name[i]
            && name[i] <= '9') || name[i] == '-'
}

/// A check name is accepted exactly when it is non-empty, at most 64 bytes
/// in UTF-8, made of `a`..`z`, `0`..`9` and `-` only, and does not start
/// with `-`.
pub proof fn lemma_name_error_literal(name: Seq<char>)
    ensures
        (name_error(name) is None) <==> name_literally_ok(name),
{
    if name_error(name) is None {
        assert forall|i: int| 0 <= i < name.len() implies ('a' <= #[trigger] name[i] && name[i]
            <= 'z') || ('0' <= name[i] && name[i] <= '9') || name[i] == '-' by {
            if i == 0 {
                assert(is_name_start(name[0]));
            } else {
                assert(is_name_char(name[i]));
            }
        }
    }
    if name_literally_ok(name) {
        assert(is_name_start(name[0])) by {
            assert(('a' <= name[0] && name[0] <= 'z') || ('0' <= name[0] && name[0] <= '9') || name[0] == '-');
        }
        assert forall|i: int| 1 <= i < name.len() implies is_name_char(#[trigger] name[i]) by {
            assert(('a' <= name[i] && name[i] <= 'z') || ('0' <= name[i] && name[i] <= '9') || name[i] == '-');
        }
    }
}

/// Every check of an accepted configuration keeps its name and place, has
/// a name made of `a`..`z`, `0`..`9` and `-` (not first), runs with its
/// own mode or else the defaults' mode, and with its own timeout or else
/// the defaults' timeout, which lies in 1..=60000 ms.
pub proof fn lemma_validated_checks(raw: SpecRawConfig)
    ensures
        validate_spec(raw) matches Ok(cs) ==> cs.len() == raw.checks.len() && forall|i: int|
            0 <= i < cs.len() ==> {
                &&& (#[trigger] cs[i]).0 == raw.checks[i].0
                &&& name_literally_ok(cs[i].0)
                &&& cs[i].1.mode == (match raw.checks[i].1.mode {
                    Some(m) => m,
                    None => raw.defaults.mode,
                })
                &&& cs[i].1.timeout_ms == (match raw.checks[i].1.timeout_ms {
                    Some(t) => t,
                    None => raw.defaults.timeout_ms,
                })
                &&& 1 <= cs[i].1.timeout_ms && cs[i].1.timeout_ms <= 60000
            },
{
    lemma_validation_accepts_exactly_valid_configs(raw);
    if let Ok(cs) = validate_spec(raw) {
        assert forall|i: int| 0 <= i < cs.len() implies {
            &&& (#[trigger] cs[i]).0 == raw.checks[i].0
            &&& name_literally_ok(cs[i].0)
            &&& cs[i].1.mode == (match raw.checks[i].1.mode {
                Some(m) => m,
                None => raw.defaults.mode,
            })
            &&& cs[i].1.timeout_ms == (match raw.checks[i].1.timeout_ms {
                Some(t) => t,
                None => raw.defaults.timeout_ms,
            })
            &&& 1 <= cs[i].1.timeout_ms && cs[i].1.timeout_ms <= 60000
        } by {
            assert(check_from(raw.defaults, raw.checks[i], cs[i]));
            lemma_name_error_literal(cs[i].0);
            assert(check_spec(raw.defaults, raw.checks[i].0, raw.checks[i].1) is Ok);
        }
    }
}

/// After a common prefix, `a` has the smaller character; or `a` is a proper
/// prefix of `b`.
pub open spec fn lexicographically_before(a: Seq<char>, b: Seq<char>) -> bool {
    ||| exists|k: int|
        0 <= k < a.len() && k < b.len() && a.take(k) == b.take(k) && #[trigger] a[k] < b[k]
    ||| a.len() < b.len() && b.take(a.len() as int) == a
}

/// Name order is the lexicographic order of characters: `a` comes before
/// `b` exactly when, after a common prefix, `a` has the smaller character,
/// or when `a` is a proper prefix of `b`.
pub proof fn lemma_name_less_is_lexicographic(a: Seq<char>, b: Seq<char>)
    ensures
        name_less(a, b) <==> ((exists|k: int|
            0 <= k < a.len() && k < b.len() && a.take(k) == b.take(k) && #[trigger] a[k] < b[k])
            || (a.len() < b.len() && b.take(a.len() as int) == a)),
    decreases a.len(),
{
    if a.len() > 0 && b.len() > 0 {
        let a1 = a.drop_first();
        let b1 = b.drop_first();
        lemma_name_less_is_lexicographic(a1, b1);
        if a[0] != b[0] {
            if a[0] < b[0] {
                assert(a.take(0) == b.take(0));
            } else {
                if exists|k: int|
                    0 <= k < a.len() && k < b.len() && a.take(k) == b.take(k) && #[trigger] a[k]
                        < b[k] {
                    let k = choose|k: int|
                        0 <= k < a.len() && k < b.len() && a.take(k) == b.take(k) && #[trigger] a[k]
                            < b[k];
                    if k > 0 {
                        assert(a.take(k)[0] == b.take(k)[0]);
                    }
                }
                if a.len() < b.len() && b.take(a.len() as int) == a {
                    assert(b.take(a.len() as int)[0] == b[0]);
                }
            }
        } else {
            if exists|k: int|
                0 <= k < a1.len() && k < b1.len() && a1.take(k) == b1.take(k) && #[trigger] a1[k]
                    < b1[k] {
                let k = choose|k: int|
                    0 <= k < a1.len() && k < b1.len() && a1.take(k) == b1.take(k) && #[trigger] a1[k]
                        < b1[k];
                assert(a.take(k + 1) =~= seq![a[0]] + a1.take(k));
                assert(b.take(k + 1) =~= seq![b[0]] + b1.take(k));
                assert(a[k + 1] == a1[k]);
                assert(b[k + 1] == b1[k]);
            }
            if exists|k: int|
                0 <= k < a.len() && k < b.len() && a.take(k) == b.take(k) && #[trigger] a[k] < b[k] {
                let k = choose|k: int|
                    0 <= k < a.len() && k < b.len() && a.take(k) == b.take(k) && #[trigger] a[k]
                        < b[k];
                assert(k > 0);
                assert(a1.take(k - 1) =~= a.take(k).drop_first());
                assert(b1.take(k - 1) =~= b.take(k).drop_first());
                assert(a1[k - 1] == a[k]);
                assert(b1[k - 1] == b[k]);
            }
            if a1.len() < b1.len() && b1.take(a1.len() as int) == a1 {
                assert forall|i: int| 0 <= i < a.len() implies #[trigger] b.take(a.len() as int)[i]
                    == a[i] by {
                    if i > 0 {
                        assert(b1.take(a1.len() as int)[i - 1] == a1[i - 1]);
                    }
                }
                assert(b.take(a.len() as int) =~= a);
            }
            if a.len() < b.len() && b.take(a.len() as int) == a {
                assert(b1.take(a1.len() as int) =~= a1);
            }
        }
    } else if a.len() == 0 {
        if b.len() > 0 {
            assert(b.take(0) =~= a);
        }
    }
}

} // verus!
