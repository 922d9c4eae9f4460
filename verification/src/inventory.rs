//! Modules and their mount rules: which strategy a module asks for at a path,
//! how the rule sources of a module are merged, and which directories of a
//! module store count as modules.

use vstd::prelude::*;
use crate::config::Config;
use crate::text::{
    is_dir_prefix, lemma_without_leading_idempotent, lies_below, lines_of, lowercase_of,
    same_text, sorts_before, split_lines, split_words, strip_leading, text_before, texts,
    to_lowercase, without_leading, words_of,
};

verus! {

/// How one contribution asks to be made visible.
#[derive(Debug, Clone, Copy, PartialEq, Eq, Structural)]
pub enum MountMode {
    /// Stacked union mount.
    Overlay,
    /// Redirection by the kernel-side rule engine.
    HymoFs,
    /// Tmpfs skeleton with bind mounts.
    Magic,
    /// Left alone.
    Ignore,
    /// No wish: taken as `Overlay` where nothing forces otherwise.
    Auto,
}

impl Default for MountMode {
    fn default() -> (r: MountMode)
        ensures
            r == MountMode::Auto,
    {
        MountMode::Auto
    }
}

/// `Auto` stands for `Overlay`; every other mode for itself.
pub open spec fn lowered(mode: MountMode) -> MountMode {
    if mode == MountMode::Auto {
        MountMode::Overlay
    } else {
        mode
    }
}

/// The mode that a rule keyword names. Unknown words name `Auto`.
pub open spec fn keyword_mode(word: Seq<char>) -> MountMode {
    if word == "overlay"@ {
        MountMode::Overlay
    } else if word == "hymo"@ || word == "hymofs"@ {
        MountMode::HymoFs
    } else if word == "magic"@ || word == "tmpfs"@ {
        MountMode::Magic
    } else if word == "ignore"@ || word == "skip"@ {
        MountMode::Ignore
    } else {
        MountMode::Auto
    }
}

/// The mode that the keyword `word`, already in lower case, names.
pub fn mode_of_keyword(word: &str) -> (r: MountMode)
    ensures
        r == keyword_mode(word@),
{
    if same_text(word, "overlay") {
        MountMode::Overlay
    } else if same_text(word, "hymo") || same_text(word, "hymofs") {
        MountMode::HymoFs
    } else if same_text(word, "magic") || same_text(word, "tmpfs") {
        MountMode::Magic
    } else if same_text(word, "ignore") || same_text(word, "skip") {
        MountMode::Ignore
    } else {
        MountMode::Auto
    }
}

/// The mode that `word` names, whatever the case of its letters.
pub fn parse_mode(word: &str) -> (r: MountMode)
    ensures
        r == keyword_mode(lowercase_of(word@)),
{
    let lower: String = to_lowercase(word);
    mode_of_keyword(lower.as_str())
}

/// One rule: the mode for a path, relative to the module's root.
#[derive(Debug, Clone)]
pub struct PathRule {
    pub path: String,
    pub mode: MountMode,
}

/// The rules of one module. Where `paths` names a path more than once, the
/// last entry counts.
#[derive(Debug, Clone)]
pub struct ModuleRules {
    pub default_mode: MountMode,
    pub paths: Vec<PathRule>,
}

/// The mapping that a list of rules stands for: later entries replace
/// earlier ones for the same path.
pub open spec fn rule_map(entries: Seq<PathRule>) -> Map<Seq<char>, MountMode>
    decreases entries.len(),
{
    if entries.len() == 0 {
        Map::empty()
    } else {
        rule_map(entries.drop_last()).insert(entries.last().path@, entries.last().mode)
    }
}

/// The mathematical view of a rule set.
pub ghost struct RulesView {
    pub default_mode: MountMode,
    pub paths: Map<Seq<char>, MountMode>,
}

impl View for ModuleRules {
    type V = RulesView;

    open spec fn view(&self) -> RulesView {
        RulesView { default_mode: self.default_mode, paths: rule_map(self.paths@) }
    }
}

/// `k` is a rule for a directory above `q`, and no rule is for a deeper one.
pub open spec fn is_best_prefix(
    paths: Map<Seq<char>, MountMode>,
    k: Seq<char>,
    q: Seq<char>,
) -> bool {
    &&& paths.contains_key(k)
    &&& is_dir_prefix(k, q)
    &&& forall|other: Seq<char>|
        paths.contains_key(other) && is_dir_prefix(other, q) ==> other.len() <= k.len()
}

/// Some rule is for a directory above `q`.
pub open spec fn has_prefix_rule(paths: Map<Seq<char>, MountMode>, q: Seq<char>) -> bool {
    exists|k: Seq<char>| paths.contains_key(k) && is_dir_prefix(k, q)
}

/// The mode that a rule set gives for a path: the rule for the path itself;
/// failing that, the rule for the deepest directory above it; failing that,
/// the default, with `Auto` taken as `Overlay`. Leading slashes of the path do
/// not count.
pub open spec fn mode_for(rules: RulesView, path: Seq<char>) -> MountMode {
    let q = without_leading(path, '/');
    if rules.paths.contains_key(q) {
        rules.paths[q]
    } else if has_prefix_rule(rules.paths, q) {
        rules.paths[choose|k: Seq<char>| is_best_prefix(rules.paths, k, q)]
    } else {
        lowered(rules.default_mode)
    }
}

/// Two directories above the same path with names of one length are one
/// directory.
pub proof fn lemma_prefix_by_length(a: Seq<char>, b: Seq<char>, q: Seq<char>)
    requires
        is_dir_prefix(a, q),
        is_dir_prefix(b, q),
        a.len() == b.len(),
    ensures
        a == b,
{
}

/// There is one deepest rule at most.
pub proof fn lemma_best_prefix_unique(
    paths: Map<Seq<char>, MountMode>,
    a: Seq<char>,
    b: Seq<char>,
    q: Seq<char>,
)
    requires
        is_best_prefix(paths, a, q),
        is_best_prefix(paths, b, q),
    ensures
        a == b,
{
    lemma_prefix_by_length(a, b, q);
}

impl ModuleRules {
    /// No rules: every path gets `Overlay`.
    pub fn new() -> (r: ModuleRules)
        ensures
            r@.default_mode == MountMode::Auto,
            r@.paths == Map::<Seq<char>, MountMode>::empty(),
    {
        ModuleRules { default_mode: MountMode::Auto, paths: Vec::new() }
    }

    /// Sets the rule for `path`, replacing an earlier one.
    pub fn set_rule(&mut self, path: &str, mode: MountMode)
        ensures
            final(self)@.default_mode == old(self)@.default_mode,
            final(self)@.paths == old(self)@.paths.insert(path@, mode),
    {
        self.paths.push(PathRule { path: String::from_str(path), mode });
        assert(self.paths@.drop_last() =~= old(self).paths@);
    }

    /// The rule for exactly `path`, if there is one.
    pub fn rule_for(&self, path: &str) -> (r: Option<MountMode>)
        ensures
            r == (if self@.paths.contains_key(path@) {
                Some(self@.paths[path@])
            } else {
                None
            }),
    {
        let mut found: Option<MountMode> = None;
        let mut i: usize = 0;
        assert(self.paths@.take(0) =~= Seq::<PathRule>::empty());
        while i < self.paths.len()
            invariant
                i <= self.paths.len(),
                found == (if rule_map(self.paths@.take(i as int)).contains_key(path@) {
                    Some(rule_map(self.paths@.take(i as int))[path@])
                } else {
                    None
                }),
            decreases self.paths.len() - i,
        {
            assert(self.paths@.take(i + 1).drop_last() =~= self.paths@.take(i as int));
            if same_text(self.paths[i].path.as_str(), path) {
                found = Some(self.paths[i].mode);
            }
            i = i + 1;
        }
        assert(self.paths@.take(i as int) =~= self.paths@);
        found
    }

    /// The mode for `relative_path`.
    pub fn get_mode(&self, relative_path: &str) -> (r: MountMode)
        ensures
            r == mode_for(self@, relative_path@),
    {
        let clean: &str = strip_leading(relative_path, '/');
        match self.rule_for(clean) {
            Some(mode) => {
                return mode;
            },
            None => {},
        }
        let ghost q = clean@;
        let mut found: bool = false;
        let mut best_len: usize = 0;
        let mut best_mode: MountMode = MountMode::Auto;
        let ghost mut best_key: Seq<char> = Seq::empty();
        let mut i: usize = 0;
        assert(self.paths@.take(0) =~= Seq::<PathRule>::empty());
        while i < self.paths.len()
            invariant
                i <= self.paths.len(),
                q == clean@,
                found ==> is_best_prefix(rule_map(self.paths@.take(i as int)), best_key, q),
                found ==> best_mode == rule_map(self.paths@.take(i as int))[best_key],
                found ==> best_len == best_key.len(),
                !found ==> !has_prefix_rule(rule_map(self.paths@.take(i as int)), q),
            decreases self.paths.len() - i,
        {
            let ghost before = rule_map(self.paths@.take(i as int));
            let ghost after = rule_map(self.paths@.take(i + 1));
            assert(self.paths@.take(i + 1).drop_last() =~= self.paths@.take(i as int));
            let entry: &PathRule = &self.paths[i];
            assert(after == before.insert(entry.path@, entry.mode));
            if lies_below(clean, entry.path.as_str()) {
                let len: usize = entry.path.as_str().unicode_len();
                if !found || len >= best_len {
                    proof {
                        if found && len == best_len {
                            lemma_prefix_by_length(entry.path@, best_key, q);
                        }
                        best_key = entry.path@;
                    }
                    found = true;
                    best_len = len;
                    best_mode = entry.mode;
                }
                assert(is_best_prefix(after, best_key, q));
            } else {
                if found {
                    assert(is_best_prefix(after, best_key, q));
                } else {
                    assert(!has_prefix_rule(after, q));
                }
            }
            i = i + 1;
        }
        assert(self.paths@.take(i as int) =~= self.paths@);
        if found {
            proof {
                let chosen = choose|k: Seq<char>| is_best_prefix(self@.paths, k, q);
                lemma_best_prefix_unique(self@.paths, chosen, best_key, q);
            }
            best_mode
        } else {
            match self.default_mode {
                MountMode::Auto => MountMode::Overlay,
                m => m,
            }
        }
    }
}

/// A list of rules followed by another stands for the first mapping
/// overridden by the second.
pub proof fn lemma_rule_map_concat(a: Seq<PathRule>, b: Seq<PathRule>)
    ensures
        rule_map(a + b) == rule_map(a).union_prefer_right(rule_map(b)),
    decreases b.len(),
{
    if b.len() == 0 {
        assert(a + b =~= a);
        assert(rule_map(a).union_prefer_right(rule_map(b)) =~= rule_map(a));
    } else {
        lemma_rule_map_concat(a, b.drop_last());
        assert((a + b).drop_last() =~= a + b.drop_last());
        assert((a + b).last() == b.last());
        assert(rule_map(a + b) =~= rule_map(a).union_prefer_right(rule_map(b)));
    }
}

/// Rules for two different paths can be set in either order.
pub proof fn lemma_rule_order_is_immaterial(entries: Seq<PathRule>, x: PathRule, y: PathRule)
    requires
        x.path@ != y.path@,
    ensures
        rule_map(entries.push(x).push(y)) == rule_map(entries.push(y).push(x)),
{
    assert(entries.push(x).push(y).drop_last() =~= entries.push(x));
    assert(entries.push(y).push(x).drop_last() =~= entries.push(y));
    assert(entries.push(x).drop_last() =~= entries);
    assert(entries.push(y).drop_last() =~= entries);
    let m = rule_map(entries);
    assert(rule_map(entries.push(x)) == m.insert(x.path@, x.mode));
    assert(rule_map(entries.push(y)) == m.insert(y.path@, y.mode));
    assert(rule_map(entries.push(x).push(y)) == m.insert(x.path@, x.mode).insert(y.path@, y.mode));
    assert(rule_map(entries.push(y).push(x)) == m.insert(y.path@, y.mode).insert(x.path@, x.mode));
    assert(m.insert(x.path@, x.mode).insert(y.path@, y.mode) =~= m.insert(y.path@, y.mode).insert(
        x.path@,
        x.mode,
    ));
}

/// Rule sets that hold the same rules answer alike, however they were put
/// together.
pub proof fn lemma_mode_depends_on_rules_alone(a: ModuleRules, b: ModuleRules, path: Seq<char>)
    requires
        a@.default_mode == b@.default_mode,
        a@.paths =~= b@.paths,
    ensures
        mode_for(a@, path) == mode_for(b@, path),
{
}

/// The rule for the path itself wins over every rule for a directory above.
pub proof fn lemma_exact_rule_wins(rules: RulesView, path: Seq<char>)
    requires
        rules.paths.contains_key(without_leading(path, '/')),
    ensures
        mode_for(rules, path) == rules.paths[without_leading(path, '/')],
{
}

/// Without a rule for the path itself, the rule for the deepest directory
/// above it wins: whatever other rule is for a directory above the path is for
/// a shallower one.
pub proof fn lemma_longest_prefix_wins(rules: RulesView, path: Seq<char>, k: Seq<char>)
    requires
        !rules.paths.contains_key(without_leading(path, '/')),
        is_best_prefix(rules.paths, k, without_leading(path, '/')),
    ensures
        mode_for(rules, path) == rules.paths[k],
        forall|other: Seq<char>|
            rules.paths.contains_key(other) && is_dir_prefix(other, without_leading(path, '/'))
                && other != k ==> other.len() < k.len(),
{
    let q = without_leading(path, '/');
    let chosen = choose|c: Seq<char>| is_best_prefix(rules.paths, c, q);
    lemma_best_prefix_unique(rules.paths, chosen, k, q);
    assert forall|other: Seq<char>|
        rules.paths.contains_key(other) && is_dir_prefix(other, q) && other != k implies other.len()
        < k.len() by {
        if other.len() == k.len() {
            lemma_prefix_by_length(other, k, q);
        }
    }
}

/// Leading slashes of the path asked for do not matter.
pub proof fn lemma_mode_ignores_leading_slashes(rules: RulesView, path: Seq<char>)
    ensures
        mode_for(rules, without_leading(path, '/')) == mode_for(rules, path),
{
    lemma_without_leading_idempotent(path, '/');
}

/// `over` laid on `base`: its default replaces the other, its rules are added
/// and replace those for the same path.
pub open spec fn merged(base: RulesView, over: RulesView) -> RulesView {
    RulesView {
        default_mode: over.default_mode,
        paths: base.paths.union_prefer_right(over.paths),
    }
}

/// The rule that one line of a legacy rule file states, if any: a mode
/// keyword, then a path. Lines of fewer than two words and lines whose first
/// word starts with `#` state none. What follows the second word is not read.
pub open spec fn legacy_rule(line: Seq<char>) -> Option<(Seq<char>, MountMode)> {
    let words = words_of(line);
    if words.len() >= 2 && words[0][0] != '#' {
        Some((without_leading(words[1], '/'), keyword_mode(lowercase_of(words[0]))))
    } else {
        None
    }
}

/// The rules that the lines of a legacy rule file state, later lines
/// replacing earlier ones for the same path.
pub open spec fn legacy_rules(lines: Seq<Seq<char>>) -> Map<Seq<char>, MountMode>
    decreases lines.len(),
{
    if lines.len() == 0 {
        Map::empty()
    } else {
        let before = legacy_rules(lines.drop_last());
        match legacy_rule(lines.last()) {
            Some((path, mode)) => before.insert(path, mode),
            None => before,
        }
    }
}

/// The rule set that the sources of one module give: the legacy file, then
/// the structured file of the module, then that of the user, each laid on what
/// came before. A source that is absent changes nothing.
pub open spec fn loaded(
    legacy: Option<Seq<char>>,
    internal: Option<RulesView>,
    user: Option<RulesView>,
) -> RulesView {
    let first = RulesView {
        default_mode: MountMode::Auto,
        paths: match legacy {
            Some(text) => legacy_rules(lines_of(text)),
            None => Map::empty(),
        },
    };
    let second = match internal {
        Some(r) => merged(first, r),
        None => first,
    };
    match user {
        Some(r) => merged(second, r),
        None => second,
    }
}

/// The view of a rule set that may be absent.
pub open spec fn rules_view(r: Option<&ModuleRules>) -> Option<RulesView> {
    match r {
        Some(rules) => Some(rules@),
        None => None,
    }
}

/// The view of a text that may be absent.
pub open spec fn text_view(t: Option<&str>) -> Option<Seq<char>> {
    match t {
        Some(text) => Some(text@),
        None => None,
    }
}

impl ModuleRules {
    /// Lays `other` on these rules.
    pub fn merge(&mut self, other: &ModuleRules)
        ensures
            final(self)@ == merged(old(self)@, other@),
    {
        self.default_mode = other.default_mode;
        let mut i: usize = 0;
        assert(other.paths@.take(0) =~= Seq::<PathRule>::empty());
        assert(self.paths@ + other.paths@.take(0) =~= self.paths@);
        while i < other.paths.len()
            invariant
                i <= other.paths.len(),
                self.default_mode == other.default_mode,
                self.paths@ == old(self).paths@ + other.paths@.take(i as int),
            decreases other.paths.len() - i,
        {
            let entry: &PathRule = &other.paths[i];
            self.paths.push(PathRule { path: entry.path.clone(), mode: entry.mode });
            proof {
                assert(other.paths@.take(i + 1) =~= other.paths@.take(i as int).push(*entry));
            }
            i = i + 1;
        }
        proof {
            assert(other.paths@.take(i as int) =~= other.paths@);
            lemma_rule_map_concat(old(self).paths@, other.paths@);
            assert(self@.paths =~= merged(old(self)@, other@).paths);
        }
    }

    /// Reads a legacy rule file: one rule per line, a mode keyword and a
    /// path. Keywords: `overlay`; `hymo` or `hymofs`; `magic` or `tmpfs`;
    /// `ignore` or `skip`; in any case of letters. Another word gives `Auto`.
    pub fn parse_legacy(text: &str) -> (r: ModuleRules)
        ensures
            r@.default_mode == MountMode::Auto,
            r@.paths == legacy_rules(lines_of(text@)),
    {
        let lines: Vec<String> = split_lines(text);
        let mut rules: ModuleRules = ModuleRules::new();
        let mut i: usize = 0;
        assert(texts(lines@).take(0) =~= Seq::<Seq<char>>::empty());
        while i < lines.len()
            invariant
                i <= lines.len(),
                texts(lines@) == lines_of(text@),
                rules@.default_mode == MountMode::Auto,
                rules@.paths == legacy_rules(texts(lines@).take(i as int)),
            decreases lines.len() - i,
        {
            assert(texts(lines@).take(i + 1).drop_last() =~= texts(lines@).take(i as int));
            assert(texts(lines@).take(i + 1).last() == lines@[i as int]@);
            let words: Vec<String> = split_words(lines[i].as_str());
            if words.len() >= 2 {
                proof {
                    crate::text::lemma_fields_are_solid(
                        lines@[i as int]@,
                        crate::text::Delimiter::WhiteSpace,
                        0,
                    );
                    assert(texts(words@)[0] == words@[0]@);
                    assert(texts(words@)[1] == words@[1]@);
                }
                if words[0].as_str().get_char(0) != '#' {
                    let mode: MountMode = parse_mode(words[0].as_str());
                    let path: &str = strip_leading(words[1].as_str(), '/');
                    rules.set_rule(path, mode);
                }
            }
            i = i + 1;
        }
        assert(texts(lines@).take(i as int) =~= texts(lines@));
        rules
    }

    /// Puts the rule sources of one module together.
    pub fn load(
        legacy: Option<&str>,
        internal: Option<&ModuleRules>,
        user: Option<&ModuleRules>,
    ) -> (r: ModuleRules)
        ensures
            r@ == loaded(text_view(legacy), rules_view(internal), rules_view(user)),
    {
        let mut rules: ModuleRules = match legacy {
            Some(text) => ModuleRules::parse_legacy(text),
            None => ModuleRules::new(),
        };
        match internal {
            Some(r) => {
                rules.merge(r);
            },
            None => {},
        }
        match user {
            Some(r) => {
                rules.merge(r);
            },
            None => {},
        }
        rules
    }
}

/// A unit of contribution: a directory of files that mirrors parts of the
/// base filesystem, with its rules.
#[derive(Debug, Clone)]
pub struct Module {
    /// Base name of the module's directory.
    pub id: String,
    /// Where the module lies on disk.
    pub source_path: String,
    pub rules: ModuleRules,
}

/// The mathematical view of a module.
pub ghost struct ModuleView {
    pub id: Seq<char>,
    pub source_path: Seq<char>,
    pub rules: RulesView,
}

impl View for Module {
    type V = ModuleView;

    open spec fn view(&self) -> ModuleView {
        ModuleView { id: self.id@, source_path: self.source_path@, rules: self.rules@ }
    }
}

/// The views of a list of modules, in order.
pub open spec fn module_views(s: Seq<Module>) -> Seq<ModuleView> {
    s.map_values(|m: Module| m@)
}

/// What was found of one entry of the module store.
#[derive(Debug, Clone)]
pub struct ModuleDir {
    /// Name of the entry.
    pub name: String,
    /// Path of the entry.
    pub path: String,
    /// The entry is a directory.
    pub is_dir: bool,
    /// It holds the marker file that switches a module off.
    pub has_disable: bool,
    /// It holds the marker file of a pending removal.
    pub has_remove: bool,
    /// It holds the marker file that asks not to be mounted.
    pub has_skip_mount: bool,
    /// Content of its legacy rule file, where one could be read.
    pub legacy_rules: Option<String>,
    /// Its structured rule file, where one could be read.
    pub internal_rules: Option<ModuleRules>,
    /// The user's structured rule file for it, where one could be read.
    pub user_rules: Option<ModuleRules>,
}

/// Names that never denote a module.
pub open spec fn is_reserved_name(name: Seq<char>) -> bool {
    name == "meta-hybrid"@ || name == "lost+found"@ || name == ".git"@
}

/// Whether `name` is one of the names that never denote a module.
pub fn is_reserved(name: &str) -> (r: bool)
    ensures
        r == is_reserved_name(name@),
{
    same_text(name, "meta-hybrid") || same_text(name, "lost+found") || same_text(name, ".git")
}

impl ModuleDir {
    /// The entry counts as a module: a directory, not under a reserved name,
    /// without a marker file.
    pub open spec fn is_module(self) -> bool {
        &&& self.is_dir
        &&& !is_reserved_name(self.name@)
        &&& !self.has_disable
        &&& !self.has_remove
        &&& !self.has_skip_mount
    }

    /// The rule set that the entry's rule sources give.
    pub open spec fn rules(self) -> RulesView {
        loaded(
            match self.legacy_rules {
                Some(t) => Some(t@),
                None => None,
            },
            match self.internal_rules {
                Some(r) => Some(r@),
                None => None,
            },
            match self.user_rules {
                Some(r) => Some(r@),
                None => None,
            },
        )
    }

    /// The module that the entry is.
    pub open spec fn module(self) -> ModuleView {
        ModuleView { id: self.name@, source_path: self.path@, rules: self.rules() }
    }

    /// Whether the entry counts as a module.
    pub fn accepts(&self) -> (r: bool)
        ensures
            r == self.is_module(),
    {
        self.is_dir && !is_reserved(self.name.as_str()) && !self.has_disable && !self.has_remove
            && !self.has_skip_mount
    }

    /// The module that the entry is, with its rules loaded.
    pub fn to_module(&self) -> (m: Module)
        ensures
            m@ == self.module(),
    {
        let legacy: Option<&str> = match &self.legacy_rules {
            Some(t) => Some(t.as_str()),
            None => None,
        };
        let internal: Option<&ModuleRules> = match &self.internal_rules {
            Some(r) => Some(r),
            None => None,
        };
        let user: Option<&ModuleRules> = match &self.user_rules {
            Some(r) => Some(r),
            None => None,
        };
        Module {
            id: self.name.clone(),
            source_path: self.path.clone(),
            rules: ModuleRules::load(legacy, internal, user),
        }
    }
}

/// The modules among the entries of a module store, in the order of the
/// entries.
pub open spec fn modules_among(dirs: Seq<ModuleDir>) -> Seq<ModuleView>
    decreases dirs.len(),
{
    if dirs.len() == 0 {
        Seq::empty()
    } else if dirs.last().is_module() {
        modules_among(dirs.drop_last()).push(dirs.last().module())
    } else {
        modules_among(dirs.drop_last())
    }
}

/// No module comes after one whose id sorts behind its own.
pub open spec fn sorted_by_id(s: Seq<ModuleView>) -> bool {
    forall|i: int, j: int| 0 <= i < j < s.len() ==> !text_before(s[j].id, s[i].id)
}

/// Where a module of the given id goes into a list that is sorted by id:
/// behind all whose id does not sort after its own.
pub open spec fn filing_slot(list: Seq<ModuleView>, id: Seq<char>) -> int
    decreases list.len(),
{
    if list.len() == 0 {
        0
    } else if text_before(id, list[0].id) {
        0
    } else {
        1 + filing_slot(list.skip(1), id)
    }
}

/// The list with the module filed at its slot.
pub open spec fn filed(list: Seq<ModuleView>, m: ModuleView) -> Seq<ModuleView> {
    list.insert(filing_slot(list, m.id), m)
}

/// The modules sorted by id; modules of one id keep their order.
pub open spec fn sorted_modules(s: Seq<ModuleView>) -> Seq<ModuleView>
    decreases s.len(),
{
    if s.len() == 0 {
        Seq::empty()
    } else {
        filed(sorted_modules(s.drop_last()), s.last())
    }
}

/// Where the first `p` modules do not sort after the id and the next one
/// does, or there is none, `p` is the slot.
pub proof fn lemma_filing_slot_is(list: Seq<ModuleView>, id: Seq<char>, p: int)
    requires
        0 <= p <= list.len(),
        forall|j: int| 0 <= j < p ==> !text_before(id, (#[trigger] list[j]).id),
        p < list.len() ==> text_before(id, list[p].id),
    ensures
        filing_slot(list, id) == p,
    decreases p,
{
    if p > 0 {
        let rest = list.skip(1);
        assert(!text_before(id, list[0].id));
        assert forall|j: int| 0 <= j < p - 1 implies !text_before(id, (#[trigger] rest[j]).id) by {
            assert(rest[j] == list[j + 1]);
        }
        lemma_filing_slot_is(rest, id, p - 1);
    }
}

/// Puts `m` into a list sorted by id, behind the modules whose id does not
/// sort after its own.
fn insert_sorted(list: &mut Vec<Module>, m: Module)
    requires
        sorted_by_id(module_views(old(list)@)),
    ensures
        module_views(final(list)@) == filed(module_views(old(list)@), m@),
        sorted_by_id(module_views(final(list)@)),
        module_views(final(list)@).to_multiset() == module_views(old(list)@).to_multiset().insert(m@),
{
    let mut p: usize = 0;
    while p < list.len() && !sorts_before(m.id.as_str(), list[p].id.as_str())
        invariant
            p <= list.len(),
            *list == *old(list),
            forall|j: int| 0 <= j < p ==> !text_before(m@.id, #[trigger] module_views(list@)[j].id),
        decreases list.len() - p,
    {
        assert(module_views(list@)[p as int] == list@[p as int]@);
        p = p + 1;
    }
    let ghost before = module_views(list@);
    proof {
        if p < list.len() {
            assert(before[p as int] == list@[p as int]@);
        }
        lemma_filing_slot_is(before, m@.id, p as int);
    }
    list.insert(p, m);
    proof {
        let after = module_views(list@);
        assert(after =~= before.insert(p as int, m@));
        vstd::seq_lib::to_multiset_insert(before, p as int, m@);
        assert forall|i: int, j: int| 0 <= i < j < after.len() implies !text_before(
            after[j].id,
            after[i].id,
        ) by {
            if j == p {
                assert(after[i] == before[i]);
            } else if i == p {
                assert(after[j] == before[j - 1]);
                if text_before(after[j].id, m@.id) {
                    if j - 1 > p {
                        crate::text::lemma_text_before_transitive(
                            after[j].id,
                            m@.id,
                            before[p as int].id,
                        );
                    } else {
                        crate::text::lemma_text_before_transitive(
                            after[j].id,
                            m@.id,
                            before[p as int].id,
                        );
                        crate::text::lemma_text_before_irreflexive(before[p as int].id);
                    }
                }
            } else {
                let bi = if i < p { i } else { i - 1 };
                let bj = if j < p { j } else { j - 1 };
                assert(after[i] == before[bi]);
                assert(after[j] == before[bj]);
            }
        }
    }
}

/// The modules of a module store, sorted by id: every entry that counts as a
/// module, once, with its rules loaded.
pub fn scan(dirs: &Vec<ModuleDir>, _config: &Config) -> (r: Vec<Module>)
    ensures
        module_views(r@) == sorted_modules(modules_among(dirs@)),
        sorted_by_id(module_views(r@)),
        module_views(r@).to_multiset() == modules_among(dirs@).to_multiset(),
{
    let mut out: Vec<Module> = Vec::new();
    let mut i: usize = 0;
    assert(dirs@.take(0) =~= Seq::<ModuleDir>::empty());
    assert(module_views(out@) =~= Seq::<ModuleView>::empty());
    while i < dirs.len()
        invariant
            i <= dirs.len(),
            module_views(out@) == sorted_modules(modules_among(dirs@.take(i as int))),
            sorted_by_id(module_views(out@)),
            module_views(out@).to_multiset() == modules_among(dirs@.take(i as int)).to_multiset(),
        decreases dirs.len() - i,
    {
        assert(dirs@.take(i + 1).drop_last() =~= dirs@.take(i as int));
        if dirs[i].accepts() {
            let m: Module = dirs[i].to_module();
            proof {
                vstd::seq_lib::to_multiset_build(modules_among(dirs@.take(i as int)), m@);
                assert(modules_among(dirs@.take(i + 1)).drop_last() =~= modules_among(
                    dirs@.take(i as int),
                ));
            }
            insert_sorted(&mut out, m);
        }
        i = i + 1;
    }
    assert(dirs@.take(i as int) =~= dirs@);
    out
}

} // verus!
