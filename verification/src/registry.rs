//! The register of rules: by which codes, names, groups and aliases the
//! rules can be chosen.

use vstd::prelude::*;

use crate::crawlers::{ContextV, Crawler, CrawlerV, RuleContext};
use crate::dialect::{contains_text, has_text};
use crate::lints::Rule;
use crate::rules::{LintPhase, LintResult, LintResultV, RuleAL01, RuleGroups, RuleLT13, RuleST01};
use crate::segment::Tables;
use crate::seqs::lemma_filter_step;
use crate::syntax::DialectKind;
use crate::text::{copy_str, str_eq};

verus! {

/// A rule, whichever of the rules it is.
#[derive(Debug, Clone, Copy)]
pub enum ErasedRule {
    TableAlias(RuleAL01),
    StartOfFile(RuleLT13),
    ElseNull(RuleST01),
}

/// What can be held as a value of one type with others of its sort.
pub trait Erased {
    type Erased;

    fn erased(self) -> Self::Erased;
}

/// What can be copied into a rule of whichever sort.
pub trait CloneRule {
    fn erased(&self) -> ErasedRule;
}

impl Erased for RuleLT13 {
    type Erased = ErasedRule;

    fn erased(self) -> (r: ErasedRule)
        ensures
            r == ErasedRule::StartOfFile(self),
    {
        ErasedRule::StartOfFile(self)
    }
}

impl Erased for RuleAL01 {
    type Erased = ErasedRule;

    fn erased(self) -> (r: ErasedRule)
        ensures
            r == ErasedRule::TableAlias(self),
    {
        ErasedRule::TableAlias(self)
    }
}

impl Erased for RuleST01 {
    type Erased = ErasedRule;

    fn erased(self) -> (r: ErasedRule)
        ensures
            r == ErasedRule::ElseNull(self),
    {
        ErasedRule::ElseNull(self)
    }
}

impl CloneRule for RuleLT13 {
    fn erased(&self) -> (r: ErasedRule)
        ensures
            r == ErasedRule::StartOfFile(*self),
    {
        ErasedRule::StartOfFile(*self)
    }
}

impl CloneRule for RuleAL01 {
    fn erased(&self) -> (r: ErasedRule)
        ensures
            r == ErasedRule::TableAlias(*self),
    {
        ErasedRule::TableAlias(*self)
    }
}

impl CloneRule for RuleST01 {
    fn erased(&self) -> (r: ErasedRule)
        ensures
            r == ErasedRule::ElseNull(*self),
    {
        ErasedRule::ElseNull(*self)
    }
}

impl CloneRule for ErasedRule {
    fn erased(&self) -> (r: ErasedRule)
        ensures
            r == *self,
    {
        *self
    }
}

impl Rule for ErasedRule {
    open spec fn spec_eval(&self, context: ContextV, counter: u32) -> Seq<LintResultV> {
        match self {
            ErasedRule::TableAlias(rule) => rule.spec_eval(context, counter),
            ErasedRule::StartOfFile(rule) => rule.spec_eval(context, counter),
            ErasedRule::ElseNull(rule) => rule.spec_eval(context, counter),
        }
    }

    open spec fn spec_counter(&self, context: ContextV, counter: u32) -> u32 {
        match self {
            ErasedRule::TableAlias(rule) => rule.spec_counter(context, counter),
            ErasedRule::StartOfFile(rule) => rule.spec_counter(context, counter),
            ErasedRule::ElseNull(rule) => rule.spec_counter(context, counter),
        }
    }

    open spec fn spec_dialect_skip(&self) -> Seq<DialectKind> {
        match self {
            ErasedRule::TableAlias(rule) => rule.spec_dialect_skip(),
            ErasedRule::StartOfFile(rule) => rule.spec_dialect_skip(),
            ErasedRule::ElseNull(rule) => rule.spec_dialect_skip(),
        }
    }

    open spec fn spec_force_enable(&self) -> bool {
        match self {
            ErasedRule::TableAlias(rule) => rule.spec_force_enable(),
            ErasedRule::StartOfFile(rule) => rule.spec_force_enable(),
            ErasedRule::ElseNull(rule) => rule.spec_force_enable(),
        }
    }

    fn dialect_skip(&self) -> (r: Vec<DialectKind>) {
        match self {
            ErasedRule::TableAlias(rule) => rule.dialect_skip(),
            ErasedRule::StartOfFile(rule) => rule.dialect_skip(),
            ErasedRule::ElseNull(rule) => rule.dialect_skip(),
        }
    }

    fn force_enable(&self) -> (r: bool) {
        match self {
            ErasedRule::TableAlias(rule) => rule.force_enable(),
            ErasedRule::StartOfFile(rule) => rule.force_enable(),
            ErasedRule::ElseNull(rule) => rule.force_enable(),
        }
    }

    open spec fn spec_name(&self) -> Seq<char> {
        match self {
            ErasedRule::TableAlias(rule) => rule.spec_name(),
            ErasedRule::StartOfFile(rule) => rule.spec_name(),
            ErasedRule::ElseNull(rule) => rule.spec_name(),
        }
    }

    open spec fn spec_description(&self) -> Seq<char> {
        match self {
            ErasedRule::TableAlias(rule) => rule.spec_description(),
            ErasedRule::StartOfFile(rule) => rule.spec_description(),
            ErasedRule::ElseNull(rule) => rule.spec_description(),
        }
    }

    open spec fn spec_code(&self) -> Seq<char> {
        match self {
            ErasedRule::TableAlias(rule) => rule.spec_code(),
            ErasedRule::StartOfFile(rule) => rule.spec_code(),
            ErasedRule::ElseNull(rule) => rule.spec_code(),
        }
    }

    open spec fn spec_groups(&self) -> Seq<RuleGroups> {
        match self {
            ErasedRule::TableAlias(rule) => rule.spec_groups(),
            ErasedRule::StartOfFile(rule) => rule.spec_groups(),
            ErasedRule::ElseNull(rule) => rule.spec_groups(),
        }
    }

    open spec fn spec_lint_phase(&self) -> LintPhase {
        match self {
            ErasedRule::TableAlias(rule) => rule.spec_lint_phase(),
            ErasedRule::StartOfFile(rule) => rule.spec_lint_phase(),
            ErasedRule::ElseNull(rule) => rule.spec_lint_phase(),
        }
    }

    open spec fn spec_is_fix_compatible(&self) -> bool {
        match self {
            ErasedRule::TableAlias(rule) => rule.spec_is_fix_compatible(),
            ErasedRule::StartOfFile(rule) => rule.spec_is_fix_compatible(),
            ErasedRule::ElseNull(rule) => rule.spec_is_fix_compatible(),
        }
    }

    open spec fn spec_crawl_behaviour(&self) -> CrawlerV {
        match self {
            ErasedRule::TableAlias(rule) => rule.spec_crawl_behaviour(),
            ErasedRule::StartOfFile(rule) => rule.spec_crawl_behaviour(),
            ErasedRule::ElseNull(rule) => rule.spec_crawl_behaviour(),
        }
    }

    fn name(&self) -> &'static str {
        match self {
            ErasedRule::TableAlias(rule) => rule.name(),
            ErasedRule::StartOfFile(rule) => rule.name(),
            ErasedRule::ElseNull(rule) => rule.name(),
        }
    }

    fn description(&self) -> &'static str {
        match self {
            ErasedRule::TableAlias(rule) => rule.description(),
            ErasedRule::StartOfFile(rule) => rule.description(),
            ErasedRule::ElseNull(rule) => rule.description(),
        }
    }

    fn code(&self) -> &'static str {
        match self {
            ErasedRule::TableAlias(rule) => rule.code(),
            ErasedRule::StartOfFile(rule) => rule.code(),
            ErasedRule::ElseNull(rule) => rule.code(),
        }
    }

    fn groups(&self) -> Vec<RuleGroups> {
        match self {
            ErasedRule::TableAlias(rule) => rule.groups(),
            ErasedRule::StartOfFile(rule) => rule.groups(),
            ErasedRule::ElseNull(rule) => rule.groups(),
        }
    }

    fn lint_phase(&self) -> LintPhase {
        match self {
            ErasedRule::TableAlias(rule) => rule.lint_phase(),
            ErasedRule::StartOfFile(rule) => rule.lint_phase(),
            ErasedRule::ElseNull(rule) => rule.lint_phase(),
        }
    }

    fn is_fix_compatible(&self) -> bool {
        match self {
            ErasedRule::TableAlias(rule) => rule.is_fix_compatible(),
            ErasedRule::StartOfFile(rule) => rule.is_fix_compatible(),
            ErasedRule::ElseNull(rule) => rule.is_fix_compatible(),
        }
    }

    fn crawl_behaviour(&self) -> Crawler {
        match self {
            ErasedRule::TableAlias(rule) => rule.crawl_behaviour(),
            ErasedRule::StartOfFile(rule) => rule.crawl_behaviour(),
            ErasedRule::ElseNull(rule) => rule.crawl_behaviour(),
        }
    }

    fn eval(&self, context: &RuleContext, tables: &mut Tables) -> (r: Vec<LintResult>) {
        match self {
            ErasedRule::TableAlias(rule) => rule.eval(context, tables),
            ErasedRule::StartOfFile(rule) => rule.eval(context, tables),
            ErasedRule::ElseNull(rule) => rule.eval(context, tables),
        }
    }
}

/// What a rule is registered as.
#[derive(Debug)]
pub struct RuleManifest {
    pub code: String,
    pub name: String,
    pub description: String,
    pub groups: Vec<RuleGroups>,
    pub aliases: Vec<String>,
    pub rule_class: ErasedRule,
}

/// The rules that are registered, in the order in which they were.
#[derive(Debug)]
pub struct RuleSet {
    pub register: Vec<RuleManifest>,
}

/// The rules that were chosen, and the references by which rules can be
/// chosen.
#[derive(Debug)]
pub struct RulePack {
    pub rules: Vec<ErasedRule>,
    pub reference_map: Vec<(String, Vec<String>)>,
}

/// The name of a group.
pub open spec fn group_name(g: RuleGroups) -> Seq<char> {
    match g {
        RuleGroups::All => "all"@,
        RuleGroups::Core => "core"@,
        RuleGroups::Aliasing => "aliasing"@,
        RuleGroups::Ambiguous => "ambiguous"@,
        RuleGroups::Capitalisation => "capitalisation"@,
        RuleGroups::Convention => "convention"@,
        RuleGroups::Layout => "layout"@,
        RuleGroups::References => "references"@,
        RuleGroups::Structure => "structure"@,
    }
}

/// Whether the rule is in the group of the name.
pub open spec fn in_group(m: RuleManifest, key: Seq<char>) -> bool {
    exists|g: int| 0 <= g < m.groups@.len() && group_name(#[trigger] m.groups@[g]) == key
}

/// Whether the rule goes by the alias.
pub open spec fn has_alias(m: RuleManifest, key: Seq<char>) -> bool {
    has_text(m.aliases@, key)
}

pub open spec fn is_code(reg: Seq<RuleManifest>, key: Seq<char>) -> bool {
    exists|i: int| 0 <= i < reg.len() && (#[trigger] reg[i]).code@ == key
}

pub open spec fn is_name(reg: Seq<RuleManifest>, key: Seq<char>) -> bool {
    exists|i: int| 0 <= i < reg.len() && (#[trigger] reg[i]).name@ == key
}

pub open spec fn is_group(reg: Seq<RuleManifest>, key: Seq<char>) -> bool {
    exists|i: int| 0 <= i < reg.len() && in_group(#[trigger] reg[i], key)
}

pub open spec fn is_alias(reg: Seq<RuleManifest>, key: Seq<char>) -> bool {
    exists|i: int| 0 <= i < reg.len() && has_alias(#[trigger] reg[i], key)
}

/// Whether the reference stands for anything.
pub open spec fn is_reference(reg: Seq<RuleManifest>, key: Seq<char>) -> bool {
    is_code(reg, key) || is_name(reg, key) || is_group(reg, key) || is_alias(reg, key)
}

/// In what way the rule answers to the reference, if it is of that way:
/// as a code (0), a name (1), a group (2) or an alias (3).
pub open spec fn answers(m: RuleManifest, key: Seq<char>, way: int) -> bool {
    if way == 0 {
        m.code@ == key
    } else if way == 1 {
        m.name@ == key
    } else if way == 2 {
        in_group(m, key)
    } else {
        has_alias(m, key)
    }
}

/// The way in which a reference is read: as a code if it is one, else as
/// a name, else as a group, else as an alias.
pub open spec fn way_of(reg: Seq<RuleManifest>, key: Seq<char>) -> int {
    if is_code(reg, key) {
        0
    } else if is_name(reg, key) {
        1
    } else if is_group(reg, key) {
        2
    } else {
        3
    }
}

/// Whether the reference stands for the rule of the code: a code stands
/// for itself alone; a name that is no code, for the rules of that name; a
/// group that is neither, for the rules in it; an alias that is none of
/// these, for the rules that go by it.
pub open spec fn refers(reg: Seq<RuleManifest>, key: Seq<char>, code: Seq<char>) -> bool {
    exists|i: int|
        0 <= i < reg.len() && (#[trigger] reg[i]).code@ == code && answers(
            reg[i],
            key,
            way_of(reg, key),
        )
}

/// Whether the map holds the code under the key.
pub open spec fn maps_to(map: Seq<(String, Vec<String>)>, key: Seq<char>, code: Seq<char>) -> bool {
    crate::dialect::has_name(map, key) && has_text(
        map[crate::dialect::index_of(map, key, 0)].1@,
        code,
    )
}

/// Whether the map holds the rule's code and name, the first `groups` of
/// its groups and the first `aliases` of its aliases.
pub open spec fn noted(
    map: Seq<(String, Vec<String>)>,
    m: RuleManifest,
    groups: int,
    aliases: int,
) -> bool {
    &&& crate::dialect::has_name(map, m.code@)
    &&& crate::dialect::has_name(map, m.name@)
    &&& forall|g: int|
        0 <= g < groups && g < m.groups@.len() ==> crate::dialect::has_name(
            map,
            group_name(#[trigger] m.groups@[g]),
        )
    &&& forall|a: int|
        0 <= a < aliases && a < m.aliases@.len() ==> crate::dialect::has_name(
            map,
            (#[trigger] m.aliases@[a])@,
        )
}

/// What a map holds, a map that begins with it holds.
pub proof fn lemma_noted_extends(
    a: Seq<(String, Vec<String>)>,
    b: Seq<(String, Vec<String>)>,
    m: RuleManifest,
    groups: int,
    aliases: int,
)
    requires
        a.len() <= b.len(),
        b.subrange(0, a.len() as int) == a,
        noted(a, m, groups, aliases),
    ensures
        noted(b, m, groups, aliases),
{
    crate::dialect::lemma_has_name_extends(a, b, m.code@);
    crate::dialect::lemma_has_name_extends(a, b, m.name@);
    assert forall|g: int| 0 <= g < groups && g < m.groups@.len() implies crate::dialect::has_name(
        b,
        group_name(#[trigger] m.groups@[g]),
    ) by {
        crate::dialect::lemma_has_name_extends(a, b, group_name(m.groups@[g]));
    }
    assert forall|x: int| 0 <= x < aliases && x < m.aliases@.len() implies crate::dialect::has_name(
        b,
        (#[trigger] m.aliases@[x])@,
    ) by {
        crate::dialect::lemma_has_name_extends(a, b, m.aliases@[x]@);
    }
}

/// A map that holds all that a rule goes by holds each reference that
/// stands for anything.
pub proof fn lemma_noted_all(map: Seq<(String, Vec<String>)>, reg: Seq<RuleManifest>, key: Seq<char>)
    requires
        forall|i: int|
            0 <= i < reg.len() ==> noted(
                map,
                #[trigger] reg[i],
                reg[i].groups@.len() as int,
                reg[i].aliases@.len() as int,
            ),
        is_reference(reg, key),
    ensures
        crate::dialect::has_name(map, key),
{
    if is_code(reg, key) {
        let i = choose|i: int| 0 <= i < reg.len() && (#[trigger] reg[i]).code@ == key;
        assert(noted(map, reg[i], reg[i].groups@.len() as int, reg[i].aliases@.len() as int));
    } else if is_name(reg, key) {
        let i = choose|i: int| 0 <= i < reg.len() && (#[trigger] reg[i]).name@ == key;
        assert(noted(map, reg[i], reg[i].groups@.len() as int, reg[i].aliases@.len() as int));
    } else if is_group(reg, key) {
        let i = choose|i: int| 0 <= i < reg.len() && in_group(#[trigger] reg[i], key);
        assert(noted(map, reg[i], reg[i].groups@.len() as int, reg[i].aliases@.len() as int));
        let g = choose|g: int|
            0 <= g < reg[i].groups@.len() && group_name(#[trigger] reg[i].groups@[g]) == key;
        assert(crate::dialect::has_name(map, group_name(reg[i].groups@[g])));
    } else {
        let i = choose|i: int| 0 <= i < reg.len() && has_alias(#[trigger] reg[i], key);
        assert(noted(map, reg[i], reg[i].groups@.len() as int, reg[i].aliases@.len() as int));
        let a = choose|a: int|
            0 <= a < reg[i].aliases@.len() && (#[trigger] reg[i].aliases@[a])@ == key;
        assert(crate::dialect::has_name(map, reg[i].aliases@[a]@));
    }
}

/// A map of the references holds a code under a key that it has where
/// the key stands for the rule of that code.
pub proof fn lemma_maps_to(
    reg: Seq<RuleManifest>,
    map: Seq<(String, Vec<String>)>,
    key: Seq<char>,
    code: Seq<char>,
)
    requires
        forall|k: int| 0 <= k < map.len() ==> entry_ok(reg, #[trigger] map[k]),
        crate::dialect::has_name(map, key),
    ensures
        maps_to(map, key, code) <==> refers(reg, key, code),
{
    crate::dialect::lemma_index_of(map, key, 0);
    let at = crate::dialect::index_of(map, key, 0);
    assert(entry_ok(reg, map[at]));
}

/// Whether the entry holds the codes that its reference stands for.
pub open spec fn entry_ok(reg: Seq<RuleManifest>, entry: (String, Vec<String>)) -> bool {
    forall|code: Seq<char>| has_text(entry.1@, code) <==> refers(reg, entry.0@, code)
}

/// Whether the rule is in the group of the name.
fn rule_in_group(m: &RuleManifest, key: &str) -> (r: bool)
    ensures
        r == in_group(*m, key@),
{
    let mut g: usize = 0;
    while g < m.groups.len()
        invariant
            g <= m.groups@.len(),
            forall|k: int| 0 <= k < g ==> group_name(#[trigger] m.groups@[k]) != key@,
        decreases m.groups.len() - g,
    {
        if str_eq(m.groups[g].as_str(), key) {
            return true;
        }
        g += 1;
    }
    false
}

/// Whether the rule answers to the reference in the way.
fn rule_answers(m: &RuleManifest, key: &str, way: u8) -> (r: bool)
    requires
        way <= 3,
    ensures
        r == answers(*m, key@, way as int),
{
    if way == 0 {
        str_eq(m.code.as_str(), key)
    } else if way == 1 {
        str_eq(m.name.as_str(), key)
    } else if way == 2 {
        rule_in_group(m, key)
    } else {
        contains_text(&m.aliases, key)
    }
}

/// Whether one of the rules answers to the reference in the way.
fn any_answers(reg: &Vec<RuleManifest>, key: &str, way: u8) -> (r: bool)
    requires
        way <= 3,
    ensures
        r == exists|i: int| 0 <= i < reg@.len() && answers(#[trigger] reg@[i], key@, way as int),
{
    let mut i: usize = 0;
    while i < reg.len()
        invariant
            i <= reg@.len(),
            way <= 3,
            forall|k: int| 0 <= k < i ==> !answers(#[trigger] reg@[k], key@, way as int),
        decreases reg.len() - i,
    {
        if rule_answers(&reg[i], key, way) {
            return true;
        }
        i += 1;
    }
    false
}

impl RuleSet {
    /// The way in which the reference is read.
    fn way(&self, key: &str) -> (r: u8)
        ensures
            r == way_of(self.register@, key@),
            r <= 3,
    {
        let reg = &self.register;
        proof {
            assert(is_code(reg@, key@) == exists|i: int|
                0 <= i < reg@.len() && answers(#[trigger] reg@[i], key@, 0));
            assert(is_name(reg@, key@) == exists|i: int|
                0 <= i < reg@.len() && answers(#[trigger] reg@[i], key@, 1));
            assert(is_group(reg@, key@) == exists|i: int|
                0 <= i < reg@.len() && answers(#[trigger] reg@[i], key@, 2));
        }
        if any_answers(reg, key, 0) {
            0
        } else if any_answers(reg, key, 1) {
            1
        } else if any_answers(reg, key, 2) {
            2
        } else {
            3
        }
    }

    /// The codes of the rules that the reference stands for.
    pub fn codes_for(&self, key: &str) -> (r: Vec<String>)
        ensures
            forall|code: Seq<char>| has_text(r@, code) <==> refers(self.register@, key@, code),
    {
        let way = self.way(key);
        let reg = &self.register;
        let mut out: Vec<String> = Vec::new();
        let mut i: usize = 0;
        while i < reg.len()
            invariant
                i <= reg@.len(),
                way == way_of(reg@, key@),
                way <= 3,
                forall|code: Seq<char>|
                    has_text(out@, code) <==> exists|k: int|
                        0 <= k < i && (#[trigger] reg@[k]).code@ == code && answers(
                            reg@[k],
                            key@,
                            way as int,
                        ),
            decreases reg.len() - i,
        {
            let ghost before = out@;
            if rule_answers(&reg[i], key, way) {
                out.push(reg[i].code.clone());
            }
            proof {
                assert forall|code: Seq<char>| has_text(out@, code) <==> exists|k: int|
                    0 <= k < i + 1 && (#[trigger] reg@[k]).code@ == code && answers(
                        reg@[k],
                        key@,
                        way as int,
                    ) by {
                    if has_text(out@, code) {
                        let w = choose|w: int| 0 <= w < out@.len() && (#[trigger] out@[w])@ == code;
                        if w < before.len() {
                            assert(before[w]@ == code);
                            assert(has_text(before, code));
                            let k = choose|k: int|
                                0 <= k < i && (#[trigger] reg@[k]).code@ == code && answers(
                                    reg@[k],
                                    key@,
                                    way as int,
                                );
                            assert(reg@[k].code@ == code);
                        } else {
                            assert(reg@[i as int].code@ == code);
                        }
                    }
                    if exists|k: int|
                        0 <= k < i + 1 && (#[trigger] reg@[k]).code@ == code && answers(
                            reg@[k],
                            key@,
                            way as int,
                        ) {
                        let k = choose|k: int|
                            0 <= k < i + 1 && (#[trigger] reg@[k]).code@ == code && answers(
                                reg@[k],
                                key@,
                                way as int,
                            );
                        if k < i {
                            assert(has_text(before, code));
                            let w = choose|w: int|
                                0 <= w < before.len() && (#[trigger] before[w])@ == code;
                            assert(out@[w]@ == code);
                        } else {
                            assert(out@[before.len() as int]@ == code);
                        }
                    }
                }
            }
            i += 1;
        }
        out
    }

    /// Whether the reference stands for anything.
    pub fn knows(&self, key: &str) -> (r: bool)
        ensures
            r == is_reference(self.register@, key@),
    {
        let reg = &self.register;
        proof {
            assert(is_code(reg@, key@) == exists|i: int|
                0 <= i < reg@.len() && answers(#[trigger] reg@[i], key@, 0));
            assert(is_name(reg@, key@) == exists|i: int|
                0 <= i < reg@.len() && answers(#[trigger] reg@[i], key@, 1));
            assert(is_group(reg@, key@) == exists|i: int|
                0 <= i < reg@.len() && answers(#[trigger] reg@[i], key@, 2));
            assert(is_alias(reg@, key@) == exists|i: int|
                0 <= i < reg@.len() && answers(#[trigger] reg@[i], key@, 3));
        }
        any_answers(reg, key, 0) || any_answers(reg, key, 1) || any_answers(reg, key, 2)
            || any_answers(reg, key, 3)
    }

    /// Puts the reference into the map, with the codes that it stands
    /// for, unless the map holds it.
    fn note(&self, map: &mut Vec<(String, Vec<String>)>, key: &str)
        requires
            forall|k: int| 0 <= k < old(map)@.len() ==> entry_ok(self.register@, #[trigger] old(map)@[k]),
        ensures
            crate::dialect::has_name(final(map)@, key@),
            final(map)@.len() >= old(map)@.len(),
            final(map)@.subrange(0, old(map)@.len() as int) == old(map)@,
            forall|k: int|
                old(map)@.len() <= k < final(map)@.len() ==> (#[trigger] final(map)@[k]).0@ == key@,
            forall|k: int| 0 <= k < final(map)@.len() ==> entry_ok(self.register@, #[trigger] final(map)@[k]),
    {
        let ghost before = map@;
        if crate::dialect::find_entry(map, key) == map.len() {
            let codes = self.codes_for(key);
            map.push((copy_str(key), codes));
            proof {
                crate::dialect::lemma_has_name_push(before, map@[before.len() as int], key@);
            }
        }
        assert(map@.subrange(0, before.len() as int) =~= before);
    }

    /// The references by which rules can be chosen, each with the codes
    /// of the rules that it stands for: the codes, the names, the groups and
    /// the aliases of the rules, in that order of precedence.
    pub fn rule_reference_map(&self) -> (r: Vec<(String, Vec<String>)>)
        ensures
            forall|k: int| 0 <= k < r@.len() ==> entry_ok(self.register@, #[trigger] r@[k]),
            forall|k: int| 0 <= k < r@.len() ==> is_reference(self.register@, (#[trigger] r@[k]).0@),
            forall|key: Seq<char>|
                is_reference(self.register@, key) ==> #[trigger] crate::dialect::has_name(r@, key),
    {
        let reg = &self.register;
        let mut map: Vec<(String, Vec<String>)> = Vec::new();
        let mut i: usize = 0;
        while i < reg.len()
            invariant
                i <= reg@.len(),
                reg == &self.register,
                forall|k: int| 0 <= k < map@.len() ==> entry_ok(self.register@, #[trigger] map@[k]),
                forall|k: int| 0 <= k < map@.len() ==> is_reference(self.register@, (#[trigger] map@[k]).0@),
                forall|j: int|
                    0 <= j < i ==> noted(
                        map@,
                        #[trigger] reg@[j],
                        reg@[j].groups@.len() as int,
                        reg@[j].aliases@.len() as int,
                    ),
            decreases reg.len() - i,
        {
            let m = &reg[i];
            let ghost m0 = map@;
            self.note(&mut map, m.code.as_str());
            let ghost m1 = map@;
            self.note(&mut map, m.name.as_str());
            let ghost m2 = map@;
            proof {
                assert(answers(reg@[i as int], m.code@, 0));
                assert(answers(reg@[i as int], m.name@, 1));
                assert(is_code(reg@, m.code@));
                assert(is_name(reg@, m.name@));
                crate::dialect::lemma_has_name_extends(m1, m2, m.code@);
                assert(noted(m2, *m, 0, 0));
                assert(m2.subrange(0, m0.len() as int) =~= m1.subrange(0, m0.len() as int));
                assert forall|k: int| 0 <= k < map@.len() implies is_reference(
                    self.register@,
                    (#[trigger] map@[k]).0@,
                ) by {
                    if k < m0.len() {
                        assert(m1.subrange(0, m0.len() as int)[k] == m1[k]);
                        assert(m2.subrange(0, m1.len() as int)[k] == m2[k]);
                        assert(is_reference(self.register@, m0[k].0@));
                    } else if k < m1.len() {
                        assert(m2.subrange(0, m1.len() as int)[k] == m2[k]);
                        assert(m1[k].0@ == m.code@);
                    } else {
                        assert(m2[k].0@ == m.name@);
                    }
                }
            }
            let mut g: usize = 0;
            while g < m.groups.len()
                invariant
                    g <= m.groups@.len(),
                    i < reg@.len(),
                    reg == &self.register,
                    *m == reg@[i as int],
                    map@.len() >= m2.len(),
                    map@.subrange(0, m2.len() as int) == m2,
                    noted(map@, *m, g as int, 0),
                    forall|k: int| 0 <= k < map@.len() ==> entry_ok(self.register@, #[trigger] map@[k]),
                    forall|k: int| 0 <= k < map@.len() ==> is_reference(self.register@, (#[trigger] map@[k]).0@),
                decreases m.groups.len() - g,
            {
                let ghost pre = map@;
                self.note(&mut map, m.groups[g].as_str());
                proof {
                    let key = group_name(m.groups@[g as int]);
                    lemma_noted_extends(pre, map@, *m, g as int, 0);
                    assert(in_group(reg@[i as int], key));
                    assert(is_group(reg@, key));
                    assert(map@.subrange(0, m2.len() as int) =~= pre.subrange(0, m2.len() as int));
                    assert forall|k: int| 0 <= k < map@.len() implies is_reference(
                        self.register@,
                        (#[trigger] map@[k]).0@,
                    ) by {
                        if k < pre.len() {
                            assert(map@.subrange(0, pre.len() as int)[k] == map@[k]);
                            assert(is_reference(self.register@, pre[k].0@));
                        }
                    }
                }
                g += 1;
            }
            let mut a: usize = 0;
            while a < m.aliases.len()
                invariant
                    a <= m.aliases@.len(),
                    i < reg@.len(),
                    reg == &self.register,
                    *m == reg@[i as int],
                    map@.len() >= m2.len(),
                    map@.subrange(0, m2.len() as int) == m2,
                    noted(map@, *m, m.groups@.len() as int, a as int),
                    forall|k: int| 0 <= k < map@.len() ==> entry_ok(self.register@, #[trigger] map@[k]),
                    forall|k: int| 0 <= k < map@.len() ==> is_reference(self.register@, (#[trigger] map@[k]).0@),
                decreases m.aliases.len() - a,
            {
                let ghost pre = map@;
                self.note(&mut map, m.aliases[a].as_str());
                proof {
                    let key = m.aliases@[a as int]@;
                    lemma_noted_extends(pre, map@, *m, m.groups@.len() as int, a as int);
                    assert(has_alias(reg@[i as int], key));
                    assert(is_alias(reg@, key));
                    assert(map@.subrange(0, m2.len() as int) =~= pre.subrange(0, m2.len() as int));
                    assert forall|k: int| 0 <= k < map@.len() implies is_reference(
                        self.register@,
                        (#[trigger] map@[k]).0@,
                    ) by {
                        if k < pre.len() {
                            assert(map@.subrange(0, pre.len() as int)[k] == map@[k]);
                            assert(is_reference(self.register@, pre[k].0@));
                        }
                    }
                }
                a += 1;
            }
            proof {
                assert forall|j: int| 0 <= j < i + 1 implies noted(
                    map@,
                    #[trigger] reg@[j],
                    reg@[j].groups@.len() as int,
                    reg@[j].aliases@.len() as int,
                ) by {
                    if j < i {
                        assert(m1.subrange(0, m0.len() as int) == m0);
                        assert(m2.subrange(0, m1.len() as int) == m1);
                        assert(map@.subrange(0, m2.len() as int) == m2);
                        assert(map@.subrange(0, m0.len() as int) =~= m0);
                        lemma_noted_extends(
                            m0,
                            map@,
                            reg@[j],
                            reg@[j].groups@.len() as int,
                            reg@[j].aliases@.len() as int,
                        );
                    }
                }
            }
            i += 1;
        }
        proof {
            assert forall|key: Seq<char>| is_reference(self.register@, key) implies #[trigger] crate::dialect::has_name(
                map@,
                key,
            ) by {
                lemma_noted_all(map@, self.register@, key);
            }
        }
        map
    }

    /// The codes of the rules that the references stand for, all of which
    /// the map must hold.
    pub fn expand_rule_refs(&self, glob_list: Vec<String>, reference_map: &Vec<(String, Vec<String>)>) -> (r:
        Vec<String>)
        requires
            forall|i: int| 0 <= i < glob_list@.len() ==> crate::dialect::has_name(reference_map@, (#[trigger] glob_list@[i])@),
        ensures
            forall|code: Seq<char>|
                has_text(r@, code) <==> exists|i: int|
                    0 <= i < glob_list@.len() && maps_to(reference_map@, (#[trigger] glob_list@[i])@, code),
    {
        let mut expanded: Vec<String> = Vec::new();
        let mut i: usize = 0;
        while i < glob_list.len()
            invariant
                i <= glob_list@.len(),
                forall|k: int| 0 <= k < glob_list@.len() ==> crate::dialect::has_name(reference_map@, (#[trigger] glob_list@[k])@),
                forall|code: Seq<char>|
                    has_text(expanded@, code) <==> exists|k: int|
                        0 <= k < i && maps_to(reference_map@, (#[trigger] glob_list@[k])@, code),
            decreases glob_list.len() - i,
        {
            let at = crate::dialect::find_entry(reference_map, glob_list[i].as_str());
            assert(crate::dialect::has_name(reference_map@, glob_list@[i as int]@));
            let codes = &reference_map[at].1;
            let ghost start = expanded@;
            let mut c: usize = 0;
            while c < codes.len()
                invariant
                    c <= codes@.len(),
                    forall|code: Seq<char>|
                        has_text(expanded@, code) <==> has_text(start, code) || has_text(
                            codes@.subrange(0, c as int),
                            code,
                        ),
                decreases codes.len() - c,
            {
                let ghost pre = expanded@;
                expanded.push(codes[c].clone());
                proof {
                    let cur = codes@.subrange(0, c + 1);
                    let old_codes = codes@.subrange(0, c as int);
                    assert forall|code: Seq<char>| has_text(expanded@, code) <==> has_text(
                        start,
                        code,
                    ) || has_text(cur, code) by {
                        if has_text(expanded@, code) {
                            let w = choose|w: int|
                                0 <= w < expanded@.len() && (#[trigger] expanded@[w])@ == code;
                            if w < pre.len() {
                                assert(pre[w]@ == code);
                                assert(has_text(pre, code));
                                if has_text(old_codes, code) {
                                    let z = choose|z: int|
                                        0 <= z < old_codes.len() && (#[trigger] old_codes[z])@
                                            == code;
                                    assert(cur[z]@ == code);
                                }
                            } else {
                                assert(cur[c as int]@ == code);
                            }
                        }
                        if has_text(start, code) {
                            assert(has_text(pre, code));
                            let w = choose|w: int| 0 <= w < pre.len() && (#[trigger] pre[w])@ == code;
                            assert(expanded@[w]@ == code);
                        }
                        if has_text(cur, code) {
                            let z = choose|z: int| 0 <= z < cur.len() && (#[trigger] cur[z])@ == code;
                            if z < c {
                                assert(old_codes[z]@ == code);
                                assert(has_text(pre, code));
                                let w = choose|w: int|
                                    0 <= w < pre.len() && (#[trigger] pre[w])@ == code;
                                assert(expanded@[w]@ == code);
                            } else {
                                assert(expanded@[pre.len() as int]@ == code);
                            }
                        }
                    }
                }
                c += 1;
            }
            proof {
                assert(codes@.subrange(0, c as int) =~= codes@);
                assert forall|code: Seq<char>| has_text(expanded@, code) <==> exists|k: int|
                    0 <= k < i + 1 && maps_to(
                        reference_map@,
                        (#[trigger] glob_list@[k])@,
                        code,
                    ) by {
                    if has_text(expanded@, code) {
                        if has_text(start, code) {
                            assert(exists|k: int|
                                0 <= k < i && maps_to(
                                    reference_map@,
                                    (#[trigger] glob_list@[k])@,
                                    code,
                                ));
                            let k = choose|k: int|
                                0 <= k < i && maps_to(
                                    reference_map@,
                                    (#[trigger] glob_list@[k])@,
                                    code,
                                );
                            assert(maps_to(reference_map@, glob_list@[k]@, code));
                        } else {
                            assert(maps_to(reference_map@, glob_list@[i as int]@, code));
                        }
                    }
                    if exists|k: int|
                        0 <= k < i + 1 && maps_to(
                            reference_map@,
                            (#[trigger] glob_list@[k])@,
                            code,
                        ) {
                        let k = choose|k: int|
                            0 <= k < i + 1 && maps_to(
                                reference_map@,
                                (#[trigger] glob_list@[k])@,
                                code,
                            );
                        if k < i {
                            assert(has_text(start, code));
                        } else {
                            assert(has_text(codes@, code));
                        }
                    }
                }
            }
            i += 1;
        }
        expanded
    }

    /// The codes of the rules that the references of the list stand for,
    /// by a map of all the references.
    fn expand_list(&self, list: &Vec<String>, reference_map: &Vec<(String, Vec<String>)>) -> (r: Vec<
        String,
    >)
        requires
            forall|i: int| 0 <= i < list@.len() ==> is_reference(self.register@, (#[trigger] list@[i])@),
            forall|k: int|
                0 <= k < reference_map@.len() ==> entry_ok(
                    self.register@,
                    #[trigger] reference_map@[k],
                ),
            forall|key: Seq<char>|
                is_reference(self.register@, key) ==> #[trigger] crate::dialect::has_name(
                    reference_map@,
                    key,
                ),
        ensures
            forall|code: Seq<char>| has_text(r@, code) <==> listed(self.register@, list@, code),
    {
        let mut globs: Vec<String> = Vec::new();
        let mut i: usize = 0;
        while i < list.len()
            invariant
                i <= list@.len(),
                globs@.len() == i,
                forall|k: int| 0 <= k < i ==> (#[trigger] globs@[k])@ == list@[k]@,
            decreases list.len() - i,
        {
            globs.push(list[i].clone());
            i += 1;
        }
        let ghost names = globs@;
        proof {
            assert forall|k: int| 0 <= k < names.len() implies crate::dialect::has_name(
                reference_map@,
                (#[trigger] names[k])@,
            ) by {
                assert(is_reference(self.register@, list@[k]@));
            }
        }
        let r = self.expand_rule_refs(globs, reference_map);
        proof {
            assert forall|code: Seq<char>| has_text(r@, code) <==> listed(
                self.register@,
                list@,
                code,
            ) by {
                if has_text(r@, code) {
                    let k = choose|k: int|
                        0 <= k < names.len() && maps_to(
                            reference_map@,
                            (#[trigger] names[k])@,
                            code,
                        );
                    lemma_maps_to(self.register@, reference_map@, names[k]@, code);
                    assert(refers(self.register@, list@[k]@, code));
                }
                if listed(self.register@, list@, code) {
                    let k = choose|k: int|
                        0 <= k < list@.len() && refers(self.register@, (#[trigger] list@[k])@, code);
                    assert(is_reference(self.register@, list@[k]@));
                    lemma_maps_to(self.register@, reference_map@, names[k]@, code);
                    assert(maps_to(reference_map@, names[k]@, code));
                }
            }
        }
        r
    }

    /// The rules that are chosen, in the order of the register: those that
    /// the list of what is allowed stands for, all the rules where there is
    /// no such list, less those that the list of what is denied stands for.
    pub fn get_rulepack(&self, allowlist: Option<Vec<String>>, denylist: Option<Vec<String>>) -> (r:
        RulePack)
        requires
            allowlist matches Some(l) ==> forall|i: int| 0 <= i < l@.len() ==> is_reference(self.register@, (#[trigger] l@[i])@),
            denylist matches Some(l) ==> forall|i: int| 0 <= i < l@.len() ==> is_reference(self.register@, (#[trigger] l@[i])@),
        ensures
            r.rules@ == picked(self.register@, allowlist, denylist),
            forall|k: int|
                0 <= k < r.reference_map@.len() ==> entry_ok(
                    self.register@,
                    #[trigger] r.reference_map@[k],
                ),
            forall|key: Seq<char>|
                is_reference(self.register@, key) <==> #[trigger] crate::dialect::has_name(
                    r.reference_map@,
                    key,
                ),
    {
        let reference_map = self.rule_reference_map();
        let allowed: Option<Vec<String>> = match &allowlist {
            Some(l) => Some(self.expand_list(l, &reference_map)),
            None => None,
        };
        let denied: Vec<String> = match &denylist {
            Some(l) => self.expand_list(l, &reference_map),
            None => Vec::new(),
        };
        let ghost reg = self.register@;
        let ghost keep = |m: RuleManifest| is_picked(reg, allowlist, denylist, m);
        let ghost class = |m: RuleManifest| m.rule_class;
        let mut rules: Vec<ErasedRule> = Vec::new();
        let mut i: usize = 0;
        proof {
            assert(reg.subrange(0, 0) =~= Seq::<RuleManifest>::empty());
            crate::seqs::lemma_filter_empty(keep);
            assert(rules@ =~= reg.subrange(0, 0).filter(keep).map_values(class));
        }
        while i < self.register.len()
            invariant
                i <= self.register@.len(),
                reg == self.register@,
                keep == |m: RuleManifest| is_picked(reg, allowlist, denylist, m),
                class == |m: RuleManifest| m.rule_class,
                allowlist matches Some(l) ==> allowed is Some && forall|code: Seq<char>|
                    has_text(allowed->0@, code) <==> listed(self.register@, l@, code),
                allowlist is None ==> allowed is None,
                denylist matches Some(l) ==> forall|code: Seq<char>|
                    has_text(denied@, code) <==> listed(self.register@, l@, code),
                denylist is None ==> denied@.len() == 0,
                rules@ == reg.subrange(0, i as int).filter(keep).map_values(class),
            decreases self.register.len() - i,
        {
            let code = self.register[i].code.as_str();
            let is_allowed = match &allowed {
                Some(a) => contains_text(a, code),
                None => true,
            };
            let is_denied = contains_text(&denied, code);
            proof {
                assert(is_allowed == chosen(reg, allowlist, code@, true));
                assert(is_denied == chosen(reg, denylist, code@, false));
                lemma_filter_step(reg, i as int, keep);
            }
            if is_allowed && !is_denied {
                rules.push(self.register[i].rule_class);
                assert(rules@ =~= reg.subrange(0, i + 1).filter(keep).map_values(class));
            }
            i += 1;
        }
        proof {
            assert(reg.subrange(0, i as int) =~= reg);
            assert forall|key: Seq<char>| #[trigger]
                crate::dialect::has_name(reference_map@, key) implies is_reference(reg, key) by {
                crate::dialect::lemma_index_of(reference_map@, key, 0);
            }
        }
        RulePack { rules, reference_map }
    }
}

/// Whether one of the references of the list stands for the rule of the
/// code.
pub open spec fn listed(reg: Seq<RuleManifest>, list: Seq<String>, code: Seq<char>) -> bool {
    exists|k: int| 0 <= k < list.len() && refers(reg, (#[trigger] list[k])@, code)
}

/// Whether the rule is allowed and not denied.
pub open spec fn is_picked(
    reg: Seq<RuleManifest>,
    allowlist: Option<Vec<String>>,
    denylist: Option<Vec<String>>,
    m: RuleManifest,
) -> bool {
    chosen(reg, allowlist, m.code@, true) && !chosen(reg, denylist, m.code@, false)
}

/// The rules of the register that are allowed and not denied, in the
/// order of the register.
pub open spec fn picked(
    reg: Seq<RuleManifest>,
    allowlist: Option<Vec<String>>,
    denylist: Option<Vec<String>>,
) -> Seq<ErasedRule> {
    reg.filter(|m: RuleManifest| is_picked(reg, allowlist, denylist, m)).map_values(
        |m: RuleManifest| m.rule_class,
    )
}

/// Whether a list chooses the rule of the code: one of its references
/// stands for the rule. Where there is no list, `default` decides.
pub open spec fn chosen(
    reg: Seq<RuleManifest>,
    list: Option<Vec<String>>,
    code: Seq<char>,
    default: bool,
) -> bool {
    match list {
        Some(l) => listed(reg, l@, code),
        None => default,
    }
}

impl RulePack {
    /// The rules that were chosen.
    pub fn rules(&self) -> (r: Vec<ErasedRule>)
        ensures
            r@ == self.rules@,
    {
        let mut out: Vec<ErasedRule> = Vec::new();
        let mut i: usize = 0;
        while i < self.rules.len()
            invariant
                i <= self.rules@.len(),
                out@ == self.rules@.subrange(0, i as int),
            decreases self.rules.len() - i,
        {
            out.push(self.rules[i]);
            assert(out@ =~= self.rules@.subrange(0, i + 1));
            i += 1;
        }
        assert(self.rules@.subrange(0, i as int) =~= self.rules@);
        out
    }
}

} // verus!
