use sqruff_lib::lints::Rule;
use sqruff_lib::registry::{CloneRule, Erased, ErasedRule, RuleManifest, RuleSet};
use sqruff_lib::rules::{RuleGroups, RuleLT13, RuleST01};

fn manifest(code: &str, name: &str, groups: Vec<RuleGroups>, aliases: Vec<&str>) -> RuleManifest {
    let rule_class = if code == "LT13" {
        ErasedRule::StartOfFile(RuleLT13)
    } else {
        ErasedRule::ElseNull(RuleST01)
    };
    RuleManifest {
        rule_class,
        code: code.to_string(),
        name: name.to_string(),
        description: String::new(),
        groups,
        aliases: aliases.into_iter().map(str::to_string).collect(),
    }
}

fn rule_set() -> RuleSet {
    RuleSet {
        register: vec![
            manifest(
                "AL01",
                "aliasing.table",
                vec![RuleGroups::All, RuleGroups::Aliasing],
                vec!["L011"],
            ),
            manifest(
                "AL05",
                "aliasing.unused",
                vec![RuleGroups::All, RuleGroups::Core, RuleGroups::Aliasing],
                vec!["L025"],
            ),
            manifest(
                "LT13",
                "layout.start_of_file",
                vec![RuleGroups::All, RuleGroups::Layout],
                vec!["L050", "core"],
            ),
        ],
    }
}

fn codes(set: &RuleSet, key: &str) -> Vec<String> {
    let mut found = set.codes_for(key);
    found.sort();
    found
}

fn entry(map: &[(String, Vec<String>)], key: &str) -> Option<Vec<String>> {
    map.iter().find(|(k, _)| k == key).map(|(_, v)| {
        let mut v = v.clone();
        v.sort();
        v
    })
}

#[test]
fn a_code_stands_for_itself() {
    let set = rule_set();
    assert_eq!(codes(&set, "AL05"), vec!["AL05"]);
    assert!(set.knows("AL05"));
}

#[test]
fn a_name_stands_for_its_rule() {
    let set = rule_set();
    assert_eq!(codes(&set, "layout.start_of_file"), vec!["LT13"]);
}

#[test]
fn a_group_stands_for_its_rules() {
    let set = rule_set();
    assert_eq!(codes(&set, "aliasing"), vec!["AL01", "AL05"]);
    assert_eq!(codes(&set, "all"), vec!["AL01", "AL05", "LT13"]);
}

#[test]
fn an_alias_that_is_a_group_is_read_as_the_group() {
    let set = rule_set();
    assert_eq!(codes(&set, "core"), vec!["AL05"]);
    assert_eq!(codes(&set, "L050"), vec!["LT13"]);
}

#[test]
fn an_unknown_reference_stands_for_nothing() {
    let set = rule_set();
    assert!(!set.knows("XX99"));
    assert!(codes(&set, "XX99").is_empty());
}

#[test]
fn the_reference_map_holds_every_reference_once() {
    let set = rule_set();
    let map = set.rule_reference_map();
    let mut keys: Vec<&str> = map.iter().map(|(k, _)| k.as_str()).collect();
    keys.sort();
    assert_eq!(
        keys,
        vec![
            "AL01",
            "AL05",
            "L011",
            "L025",
            "L050",
            "LT13",
            "aliasing",
            "aliasing.table",
            "aliasing.unused",
            "all",
            "core",
            "layout",
            "layout.start_of_file",
        ]
    );
    assert_eq!(entry(&map, "core"), Some(vec!["AL05".to_string()]));
    assert_eq!(entry(&map, "aliasing"), Some(vec!["AL01".to_string(), "AL05".to_string()]));
    assert_eq!(entry(&map, "L011"), Some(vec!["AL01".to_string()]));
}

#[test]
fn references_expand_to_their_codes() {
    let set = rule_set();
    let map = set.rule_reference_map();
    let mut got = set.expand_rule_refs(vec!["layout".to_string(), "L025".to_string()], &map);
    got.sort();
    got.dedup();
    assert_eq!(got, vec!["AL05", "LT13"]);
    assert!(set.expand_rule_refs(Vec::new(), &map).is_empty());
}

#[test]
fn a_rulepack_is_what_is_allowed_less_what_is_denied() {
    let set = rule_set();
    let all = set.get_rulepack(None, None);
    assert_eq!(all.rules().len(), 3);
    assert!(matches!(all.rules()[2], ErasedRule::StartOfFile(_)));

    let pack = set.get_rulepack(Some(vec!["aliasing".to_string()]), Some(vec!["core".to_string()]));
    assert_eq!(pack.rules().len(), 1);
    assert!(matches!(pack.rules()[0], ErasedRule::ElseNull(_)));

    let pack = set.get_rulepack(None, Some(vec!["all".to_string()]));
    assert!(pack.rules().is_empty());

    let pack = set.get_rulepack(Some(Vec::new()), None);
    assert!(pack.rules().is_empty());
}

#[test]
fn a_rulepack_holds_the_rules_themselves() {
    let set = rule_set();
    let pack = set.get_rulepack(Some(vec!["layout".to_string()]), None);
    let rules = pack.rules();
    assert_eq!(rules.len(), 1);
    assert_eq!(rules[0].code(), "LT13");
    assert_eq!(rules[0].name(), RuleLT13.name());
}

#[test]
fn an_erased_rule_is_the_rule() {
    let erased = Erased::erased(RuleST01);
    assert!(matches!(erased, ErasedRule::ElseNull(_)));
    assert_eq!(erased.code(), RuleST01.code());
    let copied = CloneRule::erased(&RuleLT13);
    assert!(matches!(copied, ErasedRule::StartOfFile(_)));
    assert_eq!(copied.description(), RuleLT13.description());
}
