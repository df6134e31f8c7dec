use surge_aggregator::configuration::{
    AirportConfiguration, Configuration, GroupConfiguration,
};
use surge_aggregator::document::SurgeConfiguration;
use surge_aggregator::group::{ProxyGroupType, ProxyGroup};

fn sub_document(proxy_lines: &[&str]) -> SurgeConfiguration {
    let mut text = String::from("[Proxy]\n");
    for line in proxy_lines {
        text.push_str(line);
        text.push('\n');
    }
    SurgeConfiguration::from_config_string(&text).unwrap()
}

#[test]
pub fn empty_config_to_surge_configuration_works() {
    let configuration = Configuration::empty("empty");
    let sub_documents: Vec<SurgeConfiguration> = Vec::new();
    let surge_configuration_opt =
        configuration.build_surge_configuration(&sub_documents, "localhost:8080");
    assert!(surge_configuration_opt.is_none());
}

#[test]
pub fn config_to_surge_configuration_works() {
    let mut configuration = Configuration::empty("test");
    configuration.upsert_group_configuration(GroupConfiguration::new(
        "group_1",
        "group_1_name",
        "Media",
    ));
    configuration.update_url_rewrites("^https?://(www.)?g.cn https://www.google.com 302");
    let sub_documents = vec![
        sub_document(&[
            "Proxy_1_1 | Media = ss,endpoint,447",
            "Proxy_1_2 = ss,endpoint,447",
        ]),
        sub_document(&[
            "Proxy_2_1 = ss,endpoint,447",
            "Proxy_2_2 = ss,endpoint,447",
        ]),
    ];
    let surge_configuration = configuration
        .build_surge_configuration(&sub_documents, "localhost:8080")
        .unwrap();
    assert_eq!(surge_configuration.get_proxies().len(), 4);
    assert_eq!(surge_configuration.get_proxy_groups().len(), 3);
    assert_eq!(
        surge_configuration.get_proxy_groups()[1].get_proxies().len(),
        1
    );
    assert_eq!(
        surge_configuration.get_proxy_groups()[1].get_proxies()[0],
        "Proxy_1_1 | Media"
    );
    assert_eq!(surge_configuration.get_url_rewrites().len(), 1);
}

#[test]
pub fn group_synthesis_order_works() {
    let configuration = Configuration::empty("plain");
    let mut surge = SurgeConfiguration::default();
    surge.add_proxy("A = https,h,443");
    surge.add_proxy("B = https,h,443");
    configuration.populate_surge_proxy_groups(&mut surge);

    let groups = surge.get_proxy_groups();
    assert_eq!(groups.len(), 2);
    assert_eq!(groups[0].get_name(), "Auto");
    assert_eq!(
        *groups[0].get_group_type(),
        ProxyGroupType::UrlTest {
            url: String::from("http://www.qualcomm.cn/generate_204"),
            interval: 1800,
            tolerance: 200,
            timeout: 5,
        }
    );
    assert_eq!(
        groups[0].get_proxies(),
        &vec![String::from("A"), String::from("B")]
    );
    assert_eq!(groups[1].get_name(), "Proxy");
    assert_eq!(*groups[1].get_group_type(), ProxyGroupType::Select);
    assert_eq!(
        groups[1].get_proxies(),
        &vec![
            String::from("Auto"),
            String::from("DIRECT"),
            String::from("A"),
            String::from("B"),
        ]
    );
}

#[test]
pub fn pattern_matching_example_works() {
    let mut configuration = Configuration::empty("patterns");
    configuration.upsert_group_configuration(GroupConfiguration::new(
        "media",
        "media_name",
        "Media",
    ));
    let mut surge = SurgeConfiguration::default();
    surge.add_proxy("Proxy_1_1 | Media = https,h,443");
    surge.add_proxy("Proxy_2_1 | Gaming = https,h,443");
    configuration.populate_surge_proxy_groups(&mut surge);

    let groups = surge.get_proxy_groups();
    assert_eq!(groups.len(), 3);
    assert_eq!(groups[1].get_name(), "media");
    assert_eq!(*groups[1].get_group_type(), ProxyGroupType::Select);
    assert_eq!(
        groups[1].get_proxies(),
        &vec![String::from("Proxy_1_1 | Media")]
    );
    assert_eq!(
        groups[2].get_proxies(),
        &vec![
            String::from("Auto"),
            String::from("DIRECT"),
            String::from("media"),
            String::from("Proxy_1_1 | Media"),
            String::from("Proxy_2_1 | Gaming"),
        ]
    );
}

#[test]
pub fn invalid_pattern_yields_empty_group() {
    let mut configuration = Configuration::empty("broken");
    configuration.upsert_group_configuration(GroupConfiguration::new(
        "bad",
        "bad_name",
        "(",
    ));
    let mut surge = SurgeConfiguration::default();
    surge.add_proxy("A = https,h,443");
    configuration.populate_surge_proxy_groups(&mut surge);

    let groups = surge.get_proxy_groups();
    assert_eq!(groups.len(), 3);
    assert_eq!(groups[1].get_name(), "bad");
    assert!(groups[1].get_proxies().is_empty());
}

#[test]
pub fn head_template_embeds_host_and_name() {
    let configuration = Configuration::empty("mine");
    let sub_documents = vec![SurgeConfiguration::default()];
    let surge = configuration
        .build_surge_configuration(&sub_documents, "example.org:9999")
        .unwrap();
    assert_eq!(
        surge.get_head(),
        "#!MANAGED-CONFIG example.org:9999/api/v1/configurations/mine/surge interval=43200 strict=false"
    );
}

#[test]
pub fn directive_blocks_are_split_and_trimmed() {
    let mut configuration = Configuration::empty("directives");
    configuration.update_generals("  loglevel = notify  \n\n dns-server = 1.1.1.1 ");
    configuration.update_rules("FINAL,DIRECT\n");
    let sub_documents = vec![SurgeConfiguration::default()];
    let surge = configuration
        .build_surge_configuration(&sub_documents, "h")
        .unwrap();
    assert_eq!(
        surge.get_general(),
        &vec![
            String::from("loglevel = notify"),
            String::from("dns-server = 1.1.1.1"),
        ]
    );
    assert_eq!(surge.get_rules(), &vec![String::from("FINAL,DIRECT")]);
    assert!(surge.get_url_rewrites().is_empty());
}

#[test]
pub fn inline_proxies_are_appended_after_merge() {
    let mut configuration = Configuration::empty("inline");
    configuration.add_proxy_line(String::from("Local = https,127.0.0.1,8080"));
    configuration.add_proxy_line(String::from("broken line without separator"));
    let sub_documents = vec![sub_document(&["Remote = ss,endpoint,447"])];
    let surge = configuration
        .build_surge_configuration(&sub_documents, "h")
        .unwrap();
    assert_eq!(surge.get_proxies().len(), 2);
    assert_eq!(surge.get_proxies()[0].get_name(), "Remote");
    assert_eq!(surge.get_proxies()[1].get_name(), "Local");
}

#[test]
pub fn merge_concatenates_in_source_order() {
    let sub_documents = vec![
        sub_document(&["A = https,h,1"]),
        sub_document(&["B = https,h,2", "C = https,h,3"]),
    ];
    let merged = Configuration::merge_surge_configurations(&sub_documents).unwrap();
    let names: Vec<&str> = merged.get_proxies().iter().map(|p| p.get_name()).collect();
    assert_eq!(names, vec!["A", "B", "C"]);
    assert!(merged.get_proxy_groups().is_empty());
    assert_eq!(merged.get_head(), "");
}

#[test]
pub fn upsert_airport_replaces_and_sorts() {
    let mut configuration = Configuration::empty("records");
    configuration.upsert_airport_configuration(AirportConfiguration::new(
        "b_airport",
        "bee",
        "https://b.example/one",
    ));
    configuration.upsert_airport_configuration(AirportConfiguration::new(
        "a_airport",
        "ay",
        "https://a.example",
    ));
    configuration.upsert_airport_configuration(AirportConfiguration::new(
        "b_airport",
        "bee2",
        "https://b.example/two",
    ));
    let airports = configuration.get_airports();
    assert_eq!(airports.len(), 2);
    assert_eq!(airports[0].get_id(), "a_airport");
    assert_eq!(airports[1].get_id(), "b_airport");
    assert_eq!(airports[1].get_url(), "https://b.example/two");
}

#[test]
pub fn upsert_group_configuration_replaces_and_sorts() {
    let mut configuration = Configuration::empty("records");
    configuration.upsert_group_configuration(GroupConfiguration::new("z", "zed", "Z"));
    configuration.upsert_group_configuration(GroupConfiguration::new("m", "em", "M"));
    configuration.upsert_group_configuration(GroupConfiguration::new("z", "zed2", "ZZ"));
    let groups = configuration.get_group_configurations();
    assert_eq!(groups.len(), 2);
    assert_eq!(groups[0].get_id(), "m");
    assert_eq!(groups[1].get_id(), "z");
    assert_eq!(groups[1].get_pattern(), "ZZ");
}

#[test]
pub fn custom_groups_iterate_in_sorted_id_order() {
    let mut configuration = Configuration::empty("ordering");
    configuration.upsert_group_configuration(GroupConfiguration::new("zz", "z", "A"));
    configuration.upsert_group_configuration(GroupConfiguration::new("aa", "a", "B"));
    let mut surge = SurgeConfiguration::default();
    surge.add_proxy("A = https,h,443");
    surge.add_proxy("B = https,h,443");
    configuration.populate_surge_proxy_groups(&mut surge);
    let groups = surge.get_proxy_groups();
    assert_eq!(groups.len(), 4);
    assert_eq!(groups[0].get_name(), "Auto");
    assert_eq!(groups[1].get_name(), "aa");
    assert_eq!(groups[2].get_name(), "zz");
    assert_eq!(groups[3].get_name(), "Proxy");
    assert_eq!(groups[1].get_proxies(), &vec![String::from("B")]);
    assert_eq!(groups[2].get_proxies(), &vec![String::from("A")]);
    assert_eq!(
        groups[3].get_proxies(),
        &vec![
            String::from("Auto"),
            String::from("DIRECT"),
            String::from("aa"),
            String::from("zz"),
            String::from("A"),
            String::from("B"),
        ]
    );
}

#[test]
pub fn synthesized_group_encodes_with_fresh_defaults() {
    let mut auto_group = ProxyGroup::with_name("Auto");
    auto_group.add_proxy("A");
    assert_eq!(
        auto_group.to_string(),
        "Auto = url-test,A,url=http://www.qualcomm.cn/generate_204,interval=1800,tolerance=200,timeout=5"
    );
}

#[test]
pub fn end_to_end_aggregation_encodes() {
    let mut configuration = Configuration::empty("full");
    configuration.upsert_group_configuration(GroupConfiguration::new(
        "media",
        "media_name",
        "Media",
    ));
    configuration.update_generals("loglevel = notify");
    let sub_documents = vec![
        sub_document(&["P1 | Media = ss,e,1", "P2 = ss,e,2"]),
        sub_document(&["P3 = ss,e,3", "P4 = ss,e,4"]),
    ];
    let surge = configuration
        .build_surge_configuration(&sub_documents, "localhost:8080")
        .unwrap();
    assert_eq!(surge.get_proxies().len(), 4);
    assert_eq!(surge.get_proxy_groups().len(), 3);
    assert_eq!(surge.get_proxy_groups()[1].get_proxies().len(), 1);
    let text = surge.to_string();
    assert!(text.contains("#!MANAGED-CONFIG localhost:8080/api/v1/configurations/full/surge"));
    assert!(text.contains("[Proxy Group]\nAuto = url-test,P1 | Media,P2,P3,P4,"));
    assert!(text.contains("media = select,P1 | Media"));
    assert!(text.contains("Proxy = select,Auto,DIRECT,media,P1 | Media,P2,P3,P4"));
}
