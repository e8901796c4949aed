//! Pattern definitions and the catalog that owns them.

use vstd::prelude::*;
use vstd::string::StringExecFns;
use crate::matcher::{is_valid_regex, regex_is_match, regex_matches, regex_valid};

verus! {

/// Mathematical model of a pattern, compiled or not.
pub struct PatternModel {
    pub name: Seq<char>,
    pub regex: Seq<char>,
    pub category: Seq<char>,
    pub description: Seq<char>,
    pub is_suspicious: bool,
    pub severity: u8,
}

/// An uncompiled rule: a named regular expression with its category, a
/// description, whether a match is suspicious, and a severity rank.
#[derive(Debug)]
pub struct PatternDef {
    pub name: String,
    pub regex: String,
    pub category: String,
    pub description: String,
    pub is_suspicious: bool,
    pub severity: u8,
}

/// A rule whose regular expression has been checked by `PatternDef::compile`.
#[derive(Debug)]
pub struct Pattern {
    pub name: String,
    pub regex: String,
    pub category: String,
    pub description: String,
    pub is_suspicious: bool,
    pub severity: u8,
}

/// Why a catalog operation failed.
#[derive(Debug)]
pub enum PatternError {
    /// The regular expression of the pattern with this name does not compile.
    InvalidPattern(String),
    /// The catalog holds no pattern with this name.
    PatternNotFound(String),
}

impl View for PatternDef {
    type V = PatternModel;

    open spec fn view(&self) -> PatternModel {
        PatternModel {
            name: self.name@,
            regex: self.regex@,
            category: self.category@,
            description: self.description@,
            is_suspicious: self.is_suspicious,
            severity: self.severity,
        }
    }
}

impl View for Pattern {
    type V = PatternModel;

    open spec fn view(&self) -> PatternModel {
        PatternModel {
            name: self.name@,
            regex: self.regex@,
            category: self.category@,
            description: self.description@,
            is_suspicious: self.is_suspicious,
            severity: self.severity,
        }
    }
}

/// The models of a sequence of patterns.
pub open spec fn pattern_models(s: Seq<Pattern>) -> Seq<PatternModel> {
    Seq::new(s.len(), |i: int| s[i]@)
}

/// The models of a sequence of definitions.
pub open spec fn definition_models(s: Seq<PatternDef>) -> Seq<PatternModel> {
    Seq::new(s.len(), |i: int| s[i]@)
}

/// Whether pattern `p` matches `text`: its regular expression compiles and
/// has a match in `text`.
pub open spec fn pattern_matches(p: PatternModel, text: Seq<char>) -> bool {
    regex_valid(p.regex) && regex_matches(p.regex, text)
}

/// Some pattern of `s` is named `name`.
pub open spec fn has_name(s: Seq<PatternModel>, name: Seq<char>) -> bool {
    exists|i: int| 0 <= i < s.len() && s[i].name == name
}

/// No two patterns of `s` share a name.
pub open spec fn names_unique(s: Seq<PatternModel>) -> bool {
    forall|i: int, j: int| 0 <= i < j < s.len() ==> s[i].name != s[j].name
}

/// `i` is the first position of `s` that holds a pattern named `name`.
pub open spec fn is_first_named(s: Seq<PatternModel>, name: Seq<char>, i: int) -> bool {
    &&& 0 <= i < s.len()
    &&& s[i].name == name
    &&& forall|j: int| 0 <= j < i ==> s[j].name != name
}

/// The first position of `s` that holds a pattern named `name`.
pub open spec fn position_of(s: Seq<PatternModel>, name: Seq<char>) -> int {
    choose|i: int| is_first_named(s, name, i)
}

/// Where a pattern is named `name`, `position_of` is the first position
/// that holds one.
pub proof fn lemma_position_of(s: Seq<PatternModel>, name: Seq<char>)
    requires
        has_name(s, name),
    ensures
        is_first_named(s, name, position_of(s, name)),
{
    let any = choose|i: int| 0 <= i < s.len() && s[i].name == name;
    lemma_first_named_exists(s, name, any);
}

proof fn lemma_first_named_exists(s: Seq<PatternModel>, name: Seq<char>, at: int)
    requires
        0 <= at < s.len(),
        s[at].name == name,
    ensures
        exists|i: int| is_first_named(s, name, i),
    decreases at,
{
    if exists|j: int| 0 <= j < at && s[j].name == name {
        let j = choose|j: int| 0 <= j < at && s[j].name == name;
        lemma_first_named_exists(s, name, j);
    } else {
        assert(is_first_named(s, name, at));
    }
}

/// The first position that holds a name is the only first one.
pub proof fn lemma_first_named_unique(s: Seq<PatternModel>, name: Seq<char>, at: int)
    requires
        is_first_named(s, name, at),
    ensures
        has_name(s, name),
        position_of(s, name) == at,
{
    let found = position_of(s, name);
    assert(is_first_named(s, name, found));
}

/// `s` with `p` in place of the pattern that has its name, or at the end
/// when no pattern has.
pub open spec fn upserted(s: Seq<PatternModel>, p: PatternModel) -> Seq<PatternModel> {
    if has_name(s, p.name) {
        s.update(position_of(s, p.name), p)
    } else {
        s.push(p)
    }
}

/// Replacing or appending by name keeps names unique.
pub proof fn lemma_upserted_unique(s: Seq<PatternModel>, p: PatternModel)
    requires
        names_unique(s),
    ensures
        names_unique(upserted(s, p)),
        has_name(upserted(s, p), p.name),
{
    let t = upserted(s, p);
    if has_name(s, p.name) {
        lemma_position_of(s, p.name);
        let at = position_of(s, p.name);
        assert(t[at].name == p.name);
    } else {
        assert(t[s.len() as int].name == p.name);
    }
}

/// Adding the same pattern twice leaves the catalog as after the first time.
pub proof fn lemma_upserted_idempotent(s: Seq<PatternModel>, p: PatternModel)
    ensures
        upserted(upserted(s, p), p) == upserted(s, p),
{
    let t = upserted(s, p);
    if has_name(s, p.name) {
        lemma_position_of(s, p.name);
        let first = position_of(s, p.name);
        assert(is_first_named(t, p.name, first));
        lemma_first_named_unique(t, p.name, first);
        assert(t.update(first, p) =~= t);
    } else {
        let last = s.len() as int;
        assert(is_first_named(t, p.name, last)) by {
            assert forall|j: int| 0 <= j < last implies t[j].name != p.name by {
                assert(t[j] == s[j]);
            }
        }
        lemma_first_named_unique(t, p.name, last);
        assert(t.update(last, p) =~= t);
    }
}

impl Clone for PatternDef {
    fn clone(&self) -> (r: Self)
        ensures
            r@ == self@,
    {
        PatternDef {
            name: self.name.clone(),
            regex: self.regex.clone(),
            category: self.category.clone(),
            description: self.description.clone(),
            is_suspicious: self.is_suspicious,
            severity: self.severity,
        }
    }
}

impl Clone for Pattern {
    fn clone(&self) -> (r: Self)
        ensures
            r@ == self@,
    {
        Pattern {
            name: self.name.clone(),
            regex: self.regex.clone(),
            category: self.category.clone(),
            description: self.description.clone(),
            is_suspicious: self.is_suspicious,
            severity: self.severity,
        }
    }
}

impl PatternDef {
    /// Checks the regular expression and returns the compiled form of this
    /// definition; fails with `InvalidPattern` when the expression does not
    /// compile.
    pub fn compile(&self) -> (r: Result<Pattern, PatternError>)
        ensures
            regex_valid(self.regex@) ==> r is Ok && r->Ok_0@ == self@,
            !regex_valid(self.regex@) ==> r is Err && r->Err_0 is InvalidPattern
                && r->Err_0->InvalidPattern_0@ == self.name@,
    {
        if is_valid_regex(self.regex.as_str()) {
            Ok(
                Pattern {
                    name: self.name.clone(),
                    regex: self.regex.clone(),
                    category: self.category.clone(),
                    description: self.description.clone(),
                    is_suspicious: self.is_suspicious,
                    severity: self.severity,
                },
            )
        } else {
            Err(PatternError::InvalidPattern(self.name.clone()))
        }
    }
}

impl Pattern {
    /// Whether the regular expression of this pattern compiles.
    pub fn is_valid(&self) -> (ok: bool)
        ensures
            ok == regex_valid(self.regex@),
    {
        is_valid_regex(self.regex.as_str())
    }

    /// Whether this pattern matches `text`.
    pub fn is_match(&self, text: &str) -> (m: bool)
        ensures
            m == pattern_matches(self@, text@),
    {
        regex_is_match(self.regex.as_str(), text)
    }
}

impl PatternError {
    /// A one-line description of the error.
    pub fn message(&self) -> (s: String)
        ensures
            self is InvalidPattern ==> s@ == "invalid pattern: "@ + self->InvalidPattern_0@,
            self is PatternNotFound ==> s@ == "pattern not found: "@ + self->PatternNotFound_0@,
    {
        match self {
            PatternError::InvalidPattern(name) => {
                let mut s = String::from_str("invalid pattern: ");
                s.append(name.as_str());
                s
            },
            PatternError::PatternNotFound(name) => {
                let mut s = String::from_str("pattern not found: ");
                s.append(name.as_str());
                s
            },
        }
    }
}

/// An independent copy of `patterns`.
pub fn clone_patterns(patterns: &Vec<Pattern>) -> (r: Vec<Pattern>)
    ensures
        pattern_models(r@) == pattern_models(patterns@),
{
    let mut r: Vec<Pattern> = Vec::new();
    let mut i: usize = 0;
    while i < patterns.len()
        invariant
            i <= patterns.len(),
            r.len() == i,
            forall|j: int| 0 <= j < i ==> r[j]@ == patterns[j]@,
        decreases patterns.len() - i,
    {
        r.push(patterns[i].clone());
        i += 1;
    }
    assert(pattern_models(r@) =~= pattern_models(patterns@));
    r
}

/// Position of the pattern named `name`, if there is one.
pub fn find_by_name(patterns: &Vec<Pattern>, name: &String) -> (r: Option<usize>)
    ensures
        match r {
            Some(i) => is_first_named(pattern_models(patterns@), name@, i as int),
            None => !has_name(pattern_models(patterns@), name@),
        },
{
    let mut i: usize = 0;
    while i < patterns.len()
        invariant
            i <= patterns.len(),
            forall|j: int| 0 <= j < i ==> patterns[j].name@ != name@,
        decreases patterns.len() - i,
    {
        if patterns[i].name == *name {
            assert forall|j: int| 0 <= j <= i implies pattern_models(patterns@)[j]
                == patterns[j]@ by {}
            return Some(i);
        }
        i += 1;
    }
    assert forall|j: int| 0 <= j < pattern_models(patterns@).len() implies pattern_models(
        patterns@,
    )[j].name != name@ by {
        assert(pattern_models(patterns@)[j] == patterns[j]@);
    }
    None
}

/// Puts `pattern` in place of the first pattern that has its name, or at
/// the end when no pattern has.
pub fn put_pattern(patterns: &mut Vec<Pattern>, pattern: Pattern)
    ensures
        pattern_models(final(patterns)@) == upserted(pattern_models(old(patterns)@), pattern@),
{
    let ghost before = pattern_models(patterns@);
    match find_by_name(patterns, &pattern.name) {
        Some(at) => {
            proof {
                lemma_first_named_unique(before, pattern.name@, at as int);
            }
            patterns.set(at, pattern);
            assert(pattern_models(patterns@) =~= before.update(at as int, pattern@));
        },
        None => {
            patterns.push(pattern);
            assert(pattern_models(patterns@) =~= before.push(pattern@));
        },
    }
}

/// Puts `pattern` in place of the first pattern that has its name, if
/// there is one, and says whether there was.
pub fn replace_pattern(patterns: &mut Vec<Pattern>, pattern: Pattern) -> (found: bool)
    ensures
        found == has_name(pattern_models(old(patterns)@), pattern.name@),
        found ==> pattern_models(final(patterns)@) == pattern_models(old(patterns)@).update(
            position_of(pattern_models(old(patterns)@), pattern.name@),
            pattern@,
        ),
        !found ==> pattern_models(final(patterns)@) == pattern_models(old(patterns)@),
{
    let ghost before = pattern_models(patterns@);
    match find_by_name(patterns, &pattern.name) {
        Some(at) => {
            proof {
                lemma_first_named_unique(before, pattern.name@, at as int);
            }
            patterns.set(at, pattern);
            assert(pattern_models(patterns@) =~= before.update(at as int, pattern@));
            true
        },
        None => false,
    }
}

/// Takes out the first pattern named `name`, if there is one, and says
/// whether there was.
pub fn take_pattern(patterns: &mut Vec<Pattern>, name: &String) -> (found: bool)
    ensures
        found == has_name(pattern_models(old(patterns)@), name@),
        found ==> pattern_models(final(patterns)@) == pattern_models(old(patterns)@).remove(
            position_of(pattern_models(old(patterns)@), name@),
        ),
        !found ==> pattern_models(final(patterns)@) == pattern_models(old(patterns)@),
{
    let ghost before = pattern_models(patterns@);
    match find_by_name(patterns, name) {
        Some(at) => {
            proof {
                lemma_first_named_unique(before, name@, at as int);
            }
            let _ = patterns.remove(at);
            assert(pattern_models(patterns@) =~= before.remove(at as int));
            true
        },
        None => false,
    }
}

/// Taking out a pattern keeps names unique and every pattern valid.
pub proof fn lemma_remove_keeps(s: Seq<PatternModel>, at: int)
    requires
        0 <= at < s.len(),
        names_unique(s),
        all_valid(s),
    ensures
        names_unique(s.remove(at)),
        all_valid(s.remove(at)),
{
    let t = s.remove(at);
    assert forall|i: int, j: int| 0 <= i < j < t.len() implies t[i].name != t[j].name by {
        let x = if i < at {
            i
        } else {
            i + 1
        };
        let y = if j < at {
            j
        } else {
            j + 1
        };
        assert(t[i] == s[x] && t[j] == s[y]);
    }
    assert forall|i: int| 0 <= i < t.len() implies regex_valid(#[trigger] t[i].regex) by {
        let x = if i < at {
            i
        } else {
            i + 1
        };
        assert(t[i] == s[x]);
    }
}

/// A catalog of patterns: the patterns can be listed, added, replaced and
/// removed by name.
pub trait PatternProvider {
    /// A snapshot of the catalog.
    fn get_patterns(&self) -> (r: Vec<Pattern>);

    /// Adds the pattern that `def` defines.
    fn add_pattern(&mut self, def: PatternDef) -> (r: Result<(), PatternError>);

    /// Replaces the pattern that has the name of `def`.
    fn update_pattern(&mut self, def: PatternDef) -> (r: Result<(), PatternError>);

    /// Removes the pattern named `name`.
    fn remove_pattern(&mut self, name: &str) -> (r: Result<(), PatternError>);
}

/// A catalog of patterns with unique names, every one of which compiles.
pub struct DefaultPatternProvider {
    patterns: Vec<Pattern>,
}

impl View for DefaultPatternProvider {
    type V = Seq<PatternModel>;

    closed spec fn view(&self) -> Seq<PatternModel> {
        pattern_models(self.patterns@)
    }
}

/// Every pattern of `s` has a regular expression that compiles.
pub open spec fn all_valid(s: Seq<PatternModel>) -> bool {
    forall|i: int| 0 <= i < s.len() ==> regex_valid(#[trigger] s[i].regex)
}

impl DefaultPatternProvider {
    #[verifier::type_invariant]
    spec fn well_formed(self) -> bool {
        &&& names_unique(pattern_models(self.patterns@))
        &&& all_valid(pattern_models(self.patterns@))
    }

    /// A catalog without patterns.
    pub fn empty() -> (r: Self)
        ensures
            r@ == Seq::<PatternModel>::empty(),
    {
        let r = DefaultPatternProvider { patterns: Vec::new() };
        assert(r@ =~= Seq::<PatternModel>::empty());
        r
    }

    /// Number of patterns in the catalog.
    pub fn len(&self) -> (n: usize)
        ensures
            n == self@.len(),
    {
        self.patterns.len()
    }
}

impl PatternProvider for DefaultPatternProvider {
    /// A snapshot of the catalog.  Names in it are unique and every regular
    /// expression compiles.
    fn get_patterns(&self) -> (r: Vec<Pattern>)
        ensures
            pattern_models(r@) == self@,
            names_unique(self@),
            all_valid(self@),
    {
        proof {
            use_type_invariant(self);
        }
        clone_patterns(&self.patterns)
    }

    /// Adds `def` to the catalog, in place of the pattern that has its name
    /// if there is one.  Fails with `InvalidPattern`, leaving the catalog as
    /// it was, when the regular expression does not compile.
    fn add_pattern(&mut self, def: PatternDef) -> (r: Result<(), PatternError>)
        ensures
            regex_valid(def.regex@) ==> r is Ok && final(self)@ == upserted(old(self)@, def@),
            !regex_valid(def.regex@) ==> r is Err && r->Err_0 is InvalidPattern
                && r->Err_0->InvalidPattern_0@ == def.name@ && final(self)@ == old(self)@,
    {
        proof {
            use_type_invariant(&*self);
        }
        match def.compile() {
            Err(e) => Err(e),
            Ok(pattern) => {
                let ghost before = pattern_models(self.patterns@);
                let mut patterns: Vec<Pattern> = Vec::new();
                std::mem::swap(&mut self.patterns, &mut patterns);
                put_pattern(&mut patterns, pattern);
                proof {
                    lemma_upserted_unique(before, def@);
                    if has_name(before, def.name@) {
                        lemma_position_of(before, def.name@);
                    }
                }
                self.patterns = patterns;
                Ok(())
            },
        }
    }

    /// Replaces the pattern that has the name of `def`.  Fails with
    /// `InvalidPattern` when the regular expression does not compile, and
    /// otherwise with `PatternNotFound` when no pattern has that name; a
    /// failed call leaves the catalog as it was.
    fn update_pattern(&mut self, def: PatternDef) -> (r: Result<(), PatternError>)
        ensures
            regex_valid(def.regex@) && has_name(old(self)@, def.name@) ==> r is Ok && final(self)@
                == old(self)@.update(position_of(old(self)@, def.name@), def@),
            regex_valid(def.regex@) && !has_name(old(self)@, def.name@) ==> r is Err
                && r->Err_0 is PatternNotFound && r->Err_0->PatternNotFound_0@ == def.name@
                && final(self)@ == old(self)@,
            !regex_valid(def.regex@) ==> r is Err && r->Err_0 is InvalidPattern
                && r->Err_0->InvalidPattern_0@ == def.name@ && final(self)@ == old(self)@,
    {
        proof {
            use_type_invariant(&*self);
        }
        match def.compile() {
            Err(e) => Err(e),
            Ok(pattern) => {
                let ghost before = pattern_models(self.patterns@);
                let mut patterns: Vec<Pattern> = Vec::new();
                std::mem::swap(&mut self.patterns, &mut patterns);
                let found = replace_pattern(&mut patterns, pattern);
                proof {
                    lemma_upserted_unique(before, def@);
                    if has_name(before, def.name@) {
                        lemma_position_of(before, def.name@);
                    }
                }
                self.patterns = patterns;
                if found {
                    Ok(())
                } else {
                    Err(PatternError::PatternNotFound(def.name))
                }
            },
        }
    }

    /// Removes the pattern named `name`.  Fails with `PatternNotFound`,
    /// leaving the catalog as it was, when no pattern has that name.
    fn remove_pattern(&mut self, name: &str) -> (r: Result<(), PatternError>)
        ensures
            has_name(old(self)@, name@) ==> r is Ok && final(self)@ == old(self)@.remove(
                position_of(old(self)@, name@),
            ),
            !has_name(old(self)@, name@) ==> r is Err && r->Err_0 is PatternNotFound
                && r->Err_0->PatternNotFound_0@ == name@ && final(self)@ == old(self)@,
    {
        proof {
            use_type_invariant(&*self);
        }
        let owned = name.to_owned();
        let ghost before = pattern_models(self.patterns@);
        let mut patterns: Vec<Pattern> = Vec::new();
        std::mem::swap(&mut self.patterns, &mut patterns);
        let found = take_pattern(&mut patterns, &owned);
        proof {
            if found {
                lemma_position_of(before, name@);
                lemma_remove_keeps(before, position_of(before, name@));
            }
        }
        self.patterns = patterns;
        if found {
            Ok(())
        } else {
            Err(PatternError::PatternNotFound(owned))
        }
    }
}

/// The model of a rule given by its parts.
pub open spec fn rule(
    name: &str,
    regex: &str,
    category: &str,
    description: &str,
    is_suspicious: bool,
    severity: u8,
) -> PatternModel {
    PatternModel {
        name: name@,
        regex: regex@,
        category: category@,
        description: description@,
        is_suspicious,
        severity,
    }
}

/// A definition given by its parts.
pub fn definition(
    name: &str,
    regex: &str,
    category: &str,
    description: &str,
    is_suspicious: bool,
    severity: u8,
) -> (r: PatternDef)
    ensures
        r@ == rule(name, regex, category, description, is_suspicious, severity),
{
    PatternDef {
        name: name.to_owned(),
        regex: regex.to_owned(),
        category: category.to_owned(),
        description: description.to_owned(),
        is_suspicious,
        severity,
    }
}

/// The built-in rules: network, command, malware and crypto indicators.
pub open spec fn builtin_catalog() -> Seq<PatternModel> {
    seq![
        rule("url", "(?i)\\b(?:https?|ftp)://[^\\s/$.?#][^\\s]*", "network", "URL with a scheme", false, 2),
        rule("ipv4_address", "\\b(?:\\d{1,3}\\.){3}\\d{1,3}\\b", "network", "IPv4 address", false, 2),
        rule("onion_address", "(?i)\\b[a-z2-7]{16,56}\\.onion\\b", "network", "Tor hidden service address", true, 4),
        rule("windows_shell", "(?i)\\b(?:cmd\\.exe|powershell(?:\\.exe)?|wscript|cscript|mshta|rundll32|regsvr32)\\b", "command", "Windows shell or script host invocation", true, 4),
        rule("unix_shell", "(?:/bin/(?:ba|z|da)?sh\\b|\\b(?:ba)?sh\\s+-c\\b)", "command", "Unix shell invocation", true, 3),
        rule("download_tool", "(?i)\\b(?:curl|wget|certutil|bitsadmin)\\s", "command", "Command-line download tool", true, 3),
        rule("process_injection_api", "\\b(?:VirtualAllocEx|WriteProcessMemory|CreateRemoteThread|NtUnmapViewOfSection|SetWindowsHookEx)", "malware", "API used for process injection", true, 5),
        rule("anti_debug_api", "\\b(?:IsDebuggerPresent|CheckRemoteDebuggerPresent|NtQueryInformationProcess)\\b", "malware", "API used to detect a debugger", true, 4),
        rule("obfuscation_marker", "(?i)(?:base64_decode|fromcharcode|eval\\s*\\(|unescape\\s*\\()", "malware", "Marker of obfuscated script code", true, 3),
        rule("autorun_registry", "(?i)\\\\CurrentVersion\\\\Run(?:Once)?\\b", "malware", "Registry autorun location", true, 4),
        rule("private_key_marker", "-----BEGIN (?:RSA |EC |DSA |OPENSSH )?PRIVATE KEY-----", "crypto", "Private key material", true, 5),
        rule("crypto_algorithm", "(?i)\\b(?:aes|3des|rc4|rsa|sha1|sha256|md5|blowfish|chacha20)\\b", "crypto", "Name of a cryptographic algorithm", false, 1),
    ]
}

/// The built-in rules, uncompiled.
pub fn builtin_definitions() -> (defs: Vec<PatternDef>)
    ensures
        definition_models(defs@) == builtin_catalog(),
{
    let mut defs: Vec<PatternDef> = Vec::new();
    defs.push(definition("url", "(?i)\\b(?:https?|ftp)://[^\\s/$.?#][^\\s]*", "network", "URL with a scheme", false, 2));
    defs.push(definition("ipv4_address", "\\b(?:\\d{1,3}\\.){3}\\d{1,3}\\b", "network", "IPv4 address", false, 2));
    defs.push(definition("onion_address", "(?i)\\b[a-z2-7]{16,56}\\.onion\\b", "network", "Tor hidden service address", true, 4));
    defs.push(definition("windows_shell", "(?i)\\b(?:cmd\\.exe|powershell(?:\\.exe)?|wscript|cscript|mshta|rundll32|regsvr32)\\b", "command", "Windows shell or script host invocation", true, 4));
    defs.push(definition("unix_shell", "(?:/bin/(?:ba|z|da)?sh\\b|\\b(?:ba)?sh\\s+-c\\b)", "command", "Unix shell invocation", true, 3));
    defs.push(definition("download_tool", "(?i)\\b(?:curl|wget|certutil|bitsadmin)\\s", "command", "Command-line download tool", true, 3));
    defs.push(definition("process_injection_api", "\\b(?:VirtualAllocEx|WriteProcessMemory|CreateRemoteThread|NtUnmapViewOfSection|SetWindowsHookEx)", "malware", "API used for process injection", true, 5));
    defs.push(definition("anti_debug_api", "\\b(?:IsDebuggerPresent|CheckRemoteDebuggerPresent|NtQueryInformationProcess)\\b", "malware", "API used to detect a debugger", true, 4));
    defs.push(definition("obfuscation_marker", "(?i)(?:base64_decode|fromcharcode|eval\\s*\\(|unescape\\s*\\()", "malware", "Marker of obfuscated script code", true, 3));
    defs.push(definition("autorun_registry", "(?i)\\\\CurrentVersion\\\\Run(?:Once)?\\b", "malware", "Registry autorun location", true, 4));
    defs.push(definition("private_key_marker", "-----BEGIN (?:RSA |EC |DSA |OPENSSH )?PRIVATE KEY-----", "crypto", "Private key material", true, 5));
    defs.push(definition("crypto_algorithm", "(?i)\\b(?:aes|3des|rc4|rsa|sha1|sha256|md5|blowfish|chacha20)\\b", "crypto", "Name of a cryptographic algorithm", false, 1));
    assert(definition_models(defs@) =~= builtin_catalog());
    defs
}

/// Every built-in rule belongs to one of the four indicator groups, each
/// group has a rule, and severities rank from 1 to 5.
pub proof fn lemma_builtin_groups()
    ensures
        forall|i: int|
            0 <= i < builtin_catalog().len() ==> {
                let c = (#[trigger] builtin_catalog()[i]).category;
                c == "network"@ || c == "command"@ || c == "malware"@ || c == "crypto"@
            },
        forall|i: int|
            0 <= i < builtin_catalog().len() ==> 1 <= (#[trigger] builtin_catalog()[i]).severity <= 5,
        exists|i: int| 0 <= i < builtin_catalog().len() && builtin_catalog()[i].category == "network"@,
        exists|i: int| 0 <= i < builtin_catalog().len() && builtin_catalog()[i].category == "command"@,
        exists|i: int| 0 <= i < builtin_catalog().len() && builtin_catalog()[i].category == "malware"@,
        exists|i: int| 0 <= i < builtin_catalog().len() && builtin_catalog()[i].category == "crypto"@,
{
    assert(builtin_catalog()[0].category == "network"@);
    assert(builtin_catalog()[3].category == "command"@);
    assert(builtin_catalog()[6].category == "malware"@);
    assert(builtin_catalog()[10].category == "crypto"@);
}

/// The catalog that results from adding, in order, each definition of
/// `defs` whose regular expression compiles.
pub open spec fn loaded(defs: Seq<PatternModel>) -> Seq<PatternModel>
    decreases defs.len(),
{
    if defs.len() == 0 {
        Seq::empty()
    } else if regex_valid(defs.last().regex) {
        upserted(loaded(defs.drop_last()), defs.last())
    } else {
        loaded(defs.drop_last())
    }
}

impl DefaultPatternProvider {
    /// A catalog built by adding the definitions in order; those whose
    /// regular expression does not compile are left out.
    pub fn from_definitions(defs: Vec<PatternDef>) -> (r: Self)
        ensures
            r@ == loaded(definition_models(defs@)),
    {
        let mut provider = DefaultPatternProvider::empty();
        let ghost all = definition_models(defs@);
        let mut i: usize = 0;
        while i < defs.len()
            invariant
                i <= defs.len(),
                all == definition_models(defs@),
                provider@ == loaded(all.take(i as int)),
            decreases defs.len() - i,
        {
            proof {
                assert(all.take(i + 1).drop_last() =~= all.take(i as int));
                assert(all.take(i + 1).last() == defs[i as int]@);
            }
            let _ = provider.add_pattern(defs[i].clone());
            i += 1;
        }
        assert(all.take(defs.len() as int) =~= all);
        provider
    }
}

impl Default for DefaultPatternProvider {
    /// The catalog of built-in rules.
    fn default() -> (r: Self)
        ensures
            r@ == loaded(builtin_catalog()),
    {
        DefaultPatternProvider::from_definitions(builtin_definitions())
    }
}

} // verus!
