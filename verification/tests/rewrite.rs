use rmqtt_plugins::rewrite::{check_rules, parse_action, to_dest_topic_items, Action, DestTopicItem, RewriteError, Rule};
use rmqtt_plugins::topic::TopicError;

#[test]
fn actions_in_any_case() {
    assert_eq!(parse_action("all"), Ok(Action::All));
    assert_eq!(parse_action("Publish"), Ok(Action::Publish));
    assert_eq!(parse_action("SUBSCRIBE"), Ok(Action::Subscribe));
    assert_eq!(parse_action("pub"), Err(RewriteError::ActionFormat));
}

#[test]
fn normal_and_place_items() {
    assert_eq!(DestTopicItem::normal("x/y"), DestTopicItem::Normal("x/y".to_string()));
    assert_eq!(DestTopicItem::place("$12"), Ok(DestTopicItem::Place(12)));
    assert_eq!(DestTopicItem::place("$"), Err(RewriteError::PlaceholderFormat));
    assert_eq!(DestTopicItem::place("$x"), Err(RewriteError::PlaceholderFormat));
    assert_eq!(DestTopicItem::place("$99999999999999999999999"), Err(RewriteError::PlaceholderFormat));
}

#[test]
fn template_items() {
    assert_eq!(
        to_dest_topic_items("x/$1/${clientid}/y/${username}$2").unwrap(),
        vec![
            DestTopicItem::Normal("x/".to_string()),
            DestTopicItem::Place(1),
            DestTopicItem::Normal("/".to_string()),
            DestTopicItem::Clientid,
            DestTopicItem::Normal("/y/".to_string()),
            DestTopicItem::Username,
            DestTopicItem::Place(2),
        ]
    );
    assert_eq!(to_dest_topic_items("plain/topic").unwrap(), vec![DestTopicItem::Normal("plain/topic".to_string())]);
    assert_eq!(to_dest_topic_items("").unwrap(), vec![]);
    assert_eq!(to_dest_topic_items("a/$/b${x}").unwrap(), vec![DestTopicItem::Normal("a/$/b${x}".to_string())]);
    assert_eq!(to_dest_topic_items("a/$99999999999999999999999"), Err(RewriteError::PlaceholderFormat));
}

#[test]
fn rule_from_fields() {
    let r = Rule::from_config(Some(Some("publish")), Some("x/#"), Some("y/$1"), Some("^x/(.+)$")).unwrap();
    assert_eq!(r.action, Action::Publish);
    assert_eq!(r.dest_topic_items, vec![DestTopicItem::Normal("y/".to_string()), DestTopicItem::Place(1)]);
    assert_eq!(r.re, Some("^x/(.+)$".to_string()));
    assert!(matches!(Rule::from_config(None, Some("x"), Some("y"), None), Err(RewriteError::RuleFormat)));
    assert!(matches!(Rule::from_config(Some(None), Some("x"), Some("y"), None), Err(RewriteError::ActionFormat)));
    assert!(matches!(Rule::from_config(Some(Some("all")), Some("x"), Some("y"), Some("(")), Err(RewriteError::Regex)));
}

#[test]
fn duplicate_filters_refused() {
    let a = Rule::from_config(Some(Some("all")), Some("x/+"), Some("y"), None).unwrap();
    let b = Rule::from_config(Some(Some("all")), Some("z"), Some("y"), None).unwrap();
    let c = Rule::from_config(Some(Some("all")), Some("x/+"), Some("w"), None).unwrap();
    assert_eq!(check_rules(&vec![a, b]), Ok(()));
    let a = Rule::from_config(Some(Some("all")), Some("x/+"), Some("y"), None).unwrap();
    assert_eq!(check_rules(&vec![a, c]), Err(RewriteError::DuplicateFilter));
    let bad = Rule::from_config(Some(Some("all")), Some("x/#/y"), Some("y"), None).unwrap();
    assert_eq!(check_rules(&vec![bad]), Err(RewriteError::Topic(TopicError::InvalidTopic)));
}

#[test]
fn rule_from_checked_config_uses_regex_verdict() {
    let ok = Rule::from_checked_config(Some(Some("publish")), Some("x/#"), Some("y/$1"), Some("^x/(.+)$"), true)
        .unwrap();
    assert_eq!(ok.action, Action::Publish);
    assert_eq!(ok.re, Some("^x/(.+)$".to_string()));
    assert_eq!(
        Rule::from_checked_config(Some(Some("publish")), Some("x/#"), Some("y/$1"), Some("^x/(.+)$"), false).err(),
        Some(RewriteError::Regex)
    );
    let no_re = Rule::from_checked_config(Some(Some("all")), Some("x/#"), Some("y"), None, false).unwrap();
    assert_eq!(no_re.re, None);
    assert!(Rule::from_config(Some(Some("all")), Some("x/#"), Some("y"), Some("(")).is_err());
}

#[test]
fn dest_topic_item_default_is_empty_text() {
    assert_eq!(DestTopicItem::default(), DestTopicItem::Normal(String::new()));
    assert_eq!(DestTopicItem::normal(""), DestTopicItem::default());
    assert_eq!(DestTopicItem::normal("a/b"), DestTopicItem::Normal("a/b".to_string()));
}
