use surge_aggregator::document::SurgeConfiguration;
use surge_aggregator::group::{ProxyGroup, ProxyGroupType};
use surge_aggregator::params::{params_map_from_strs, string_vec_from_strs};
use surge_aggregator::proxy::Proxy;

fn param_value(proxy: &Proxy, key: &str) -> String {
    proxy
        .get_parameters()
        .iter()
        .find(|kv| kv.0 == key)
        .map(|kv| kv.1.clone())
        .expect("parameter should be present")
}

#[test]
pub fn default_should_work() {
    let surge_config = SurgeConfiguration::default();
    assert_eq!(surge_config.get_head(), "");
    assert!(surge_config.get_general().is_empty());
    assert!(surge_config.get_proxies().is_empty());
}

#[test]
pub fn https_proxy_from_str_should_work() {
    let proxy = Proxy::from_str(
        "🇨🇳 CN2 ⚡ = https , a.b.c.net , 3389 , username , password , tls13=false, obfs =  aaa",
    )
    .expect("Parsing should work");
    assert_eq!(proxy.get_name(), "🇨🇳 CN2 ⚡");
    assert_eq!(proxy.get_proto(), "https");
    assert_eq!(proxy.get_port(), 3389);
    assert_eq!(proxy.get_host(), "a.b.c.net");
    assert_eq!(proxy.get_username().clone().unwrap(), "username");
    assert_eq!(proxy.get_password().clone().unwrap(), "password");
    assert_eq!(param_value(&proxy, "tls13"), "false");
    assert_eq!(param_value(&proxy, "obfs"), "aaa");
}

#[test]
pub fn ss_proxy_from_str_should_work() {
    let proxy = Proxy::from_str("🇭🇰 HK Standard A01 | Media | Rate 0.5x = ss, endpoint, 447, encrypt-method=abc, password=ddd, obfs=abc,obfs-host=ddd, tfo=true")
        .expect("Parsing should work");
    assert_eq!(proxy.get_name(), "🇭🇰 HK Standard A01 | Media | Rate 0.5x");
    assert_eq!(proxy.get_proto(), "ss");
    assert_eq!(proxy.get_port(), 447);
    assert_eq!(proxy.get_host(), "endpoint");
    assert!(proxy.get_username().is_none());
    assert!(proxy.get_password().is_none());
    assert_eq!(param_value(&proxy, "encrypt-method"), "abc");
    assert_eq!(param_value(&proxy, "password"), "ddd");
    assert_eq!(param_value(&proxy, "obfs"), "abc");
    assert_eq!(param_value(&proxy, "obfs-host"), "ddd");
    assert_eq!(param_value(&proxy, "tfo"), "true");
}

#[test]
pub fn https_proxy_to_string_should_work() {
    let params = vec![
        (String::from("abd"), String::from("def")),
        (String::from("abc"), String::from("def")),
    ];
    let proxy = Proxy::new(
        "https proxy",
        "https",
        "www.a.com",
        447,
        Some(String::from("abc")),
        Some(String::from("def")),
        params,
    );
    assert_eq!(
        proxy.to_string(),
        "https proxy = https,www.a.com,447,abc,def,abc=def,abd=def"
    );
}

#[test]
pub fn select_group_from_str_should_work() {
    let proxy_group = ProxyGroup::from_str("AsianTV = select, Direct, Proxy, 🇭🇰 HK Standard A01 | Media | Rate 0.5x, 🇭🇰 HK Standard A02 | Media | Rate 0.5x")
        .expect("Parsing should work");
    assert_eq!(proxy_group.get_name(), "AsianTV");
    assert_eq!(*proxy_group.get_group_type(), ProxyGroupType::Select);
    assert_eq!(
        proxy_group.get_proxies(),
        &vec![
            String::from("Direct"),
            String::from("Proxy"),
            String::from("🇭🇰 HK Standard A01 | Media | Rate 0.5x"),
            String::from("🇭🇰 HK Standard A02 | Media | Rate 0.5x"),
        ]
    )
}

#[test]
pub fn url_test_group_from_str_should_work() {
    let proxy_group = ProxyGroup::from_str("AsianTV = url-test, Direct, Proxy, 🇭🇰 HK Standard A01 | Media | Rate 0.5x, 🇭🇰 HK Standard A02 | Media | Rate 0.5x, url = http://www.qualcomm.cn/generate_204, interval = 1800, tolerance = 200")
        .expect("Parsing should work");
    assert_eq!(proxy_group.get_name(), "AsianTV");
    assert_eq!(
        *proxy_group.get_group_type(),
        ProxyGroupType::UrlTest {
            url: String::from("http://www.qualcomm.cn/generate_204"),
            interval: 1800,
            tolerance: 200,
            timeout: 5,
        }
    );
    assert_eq!(
        proxy_group.get_proxies(),
        &vec![
            String::from("Direct"),
            String::from("Proxy"),
            String::from("🇭🇰 HK Standard A01 | Media | Rate 0.5x"),
            String::from("🇭🇰 HK Standard A02 | Media | Rate 0.5x"),
        ]
    )
}

#[test]
pub fn to_config_should_work() {
    let mut surge_config = SurgeConfiguration::default();
    surge_config.set_head(String::from("!MANAGED-CONFIG https://abc.com"));
    surge_config.add_general(String::from("http-listen = 0.0.0.0:8888"));
    surge_config.add_proxy("🇭🇰 HK Standard A01 | Media | Rate 0.5x = ss, endpoint, 447, encrypt-method=abc, password=ddd, obfs=abc,obfs-host=ddd, tfo=true");
    surge_config.add_proxy_group(ProxyGroup::from_str("AsianTV = select, Direct, Proxy, 🇭🇰 HK Standard A01 | Media | Rate 0.5x, 🇭🇰 HK Standard A02 | Media | Rate 0.5x").unwrap());
    surge_config.add_proxy_group(ProxyGroup::from_str("AsianTV = url-test, Direct, Proxy, 🇭🇰 HK Standard A01 | Media | Rate 0.5x, 🇭🇰 HK Standard A02 | Media | Rate 0.5x, url = http://www.qualcomm.cn/generate_204, interval = 1800, tolerance = 200").unwrap());
    surge_config.add_rule(String::from("DOMAIN-SUFFIX,gazellegames.net,DIRECT"));
    surge_config.add_url_rewrite(String::from(
        "^https?://(www.)?g.cn https://www.google.com 302",
    ));

    let config = surge_config.to_string();
    assert_eq!(
        config,
        r#"!MANAGED-CONFIG https://abc.com

[General]
http-listen = 0.0.0.0:8888

[Proxy]
🇭🇰 HK Standard A01 | Media | Rate 0.5x = ss,endpoint,447,encrypt-method=abc,obfs=abc,obfs-host=ddd,password=ddd,tfo=true

[Proxy Group]
AsianTV = select,Direct,Proxy,🇭🇰 HK Standard A01 | Media | Rate 0.5x,🇭🇰 HK Standard A02 | Media | Rate 0.5x
AsianTV = url-test,Direct,Proxy,🇭🇰 HK Standard A01 | Media | Rate 0.5x,🇭🇰 HK Standard A02 | Media | Rate 0.5x,url=http://www.qualcomm.cn/generate_204,interval=1800,tolerance=200,timeout=5

[Rule]
DOMAIN-SUFFIX,gazellegames.net,DIRECT

[URL Rewrite]
^https?://(www.)?g.cn https://www.google.com 302"#
    );
}

#[test]
pub fn surge_config_from_string_should_work() {
    let surge_config = SurgeConfiguration::from_config_string(
        r#"#!MANAGED-CONFIG https://abc.com

[General]
http-listen = 0.0.0.0:8888

[Proxy]
🇭🇰 HK Standard A01 | Media | Rate 0.5x = ss,endpoint,447,encrypt-method=abc,obfs=abc,obfs-host=ddd,password=ddd,tfo=true
🇭🇰 HK Standard A02 | Media | Rate 0.5x = ss,endpoint,447,encrypt-method=abc,obfs=abc,obfs-host=ddd,password=ddd,tfo=true

[Proxy Group]
AsianTV = select,Direct,Proxy,🇭🇰 HK Standard A01 | Media | Rate 0.5x,🇭🇰 HK Standard A02 | Media | Rate 0.5x
AsianTV = url-test,Direct,Proxy,🇭🇰 HK Standard A01 | Media | Rate 0.5x,🇭🇰 HK Standard A02 | Media | Rate 0.5x,url=http://www.qualcomm.cn/generate_204,interval=1800,tolerance=200,timeout=5

[Rule]
DOMAIN-SUFFIX,gazellegames.net,DIRECT

[URL Rewrite]
^https?://(www.)?g.cn https://www.google.com 302"#,
    )
    .unwrap();
    assert_eq!(surge_config.get_head(), "#!MANAGED-CONFIG https://abc.com");
    assert_eq!(surge_config.get_general().len(), 1);
    assert_eq!(surge_config.get_proxies().len(), 2);
    assert_eq!(surge_config.get_proxy_groups().len(), 2);
    assert_eq!(surge_config.get_rules().len(), 1);
    assert_eq!(surge_config.get_url_rewrites().len(), 1);
}

#[test]
pub fn proxy_round_trip_reencode_works() {
    let line = "edge = https, host.example, 8443, user, pw=1, b=2,  a = 1 ,c=3";
    let first = Proxy::from_str(line).expect("Parsing should work");
    let encoded = first.to_string();
    let second = Proxy::from_str(encoded.as_str()).expect("Re-parsing should work");
    assert_eq!(second.get_name(), first.get_name());
    assert_eq!(second.get_proto(), first.get_proto());
    assert_eq!(second.get_host(), first.get_host());
    assert_eq!(second.get_port(), first.get_port());
    assert_eq!(second.get_username(), first.get_username());
    assert_eq!(second.get_password(), first.get_password());
    assert_eq!(second.get_parameters(), first.get_parameters());
    assert_eq!(second.to_string(), encoded);
}

#[test]
pub fn document_reencode_is_identical() {
    let doc = SurgeConfiguration::from_config_string(
        "#!MANAGED-CONFIG https://abc.com\n\n[Proxy]\na = https,h,443\n\n[Rule]\nFINAL,DIRECT",
    )
    .unwrap();
    let once = doc.to_string();
    let twice = doc.to_string();
    assert_eq!(once, twice);
}

#[test]
pub fn partial_failure_yields_one_proxy() {
    let doc = SurgeConfiguration::from_config_string(
        "[Proxy]\ngood = https,h,443\nthis line has no separator",
    )
    .unwrap();
    assert_eq!(doc.get_proxies().len(), 1);
    assert_eq!(doc.get_proxies()[0].get_name(), "good");
}

#[test]
pub fn head_last_wins() {
    let doc = SurgeConfiguration::from_config_string(
        "#!MANAGED-CONFIG first\nsome noise\n#!MANAGED-CONFIG second",
    )
    .unwrap();
    assert_eq!(doc.get_head(), "#!MANAGED-CONFIG second");
}

#[test]
pub fn unrecognized_section_is_discarded() {
    let doc = SurgeConfiguration::from_config_string(
        "[Rule]\nFINAL,DIRECT\n[Host]\nignored = 1.2.3.4\n[General]\nloglevel = notify",
    )
    .unwrap();
    assert_eq!(doc.get_rules().len(), 1);
    assert_eq!(doc.get_general().len(), 1);
    assert_eq!(doc.get_general()[0], "loglevel = notify");
}

#[test]
pub fn comments_and_blanks_are_skipped() {
    let doc = SurgeConfiguration::from_config_string(
        "[Rule]\n// a comment\n\nFINAL,DIRECT\n   \nDOMAIN,x.y,DIRECT",
    )
    .unwrap();
    assert_eq!(
        doc.get_rules(),
        &vec![String::from("FINAL,DIRECT"), String::from("DOMAIN,x.y,DIRECT")]
    );
}

#[test]
pub fn bad_port_rejects_entry() {
    assert!(Proxy::from_str("a = https,h,80x").is_none());
    assert!(Proxy::from_str("a = https,h,-1").is_none());
    assert!(Proxy::from_str("a = https,h,99999999999").is_none());
}

#[test]
pub fn plus_prefixed_port_parses() {
    let proxy = Proxy::from_str("a = https,h,+443").expect("Parsing should work");
    assert_eq!(proxy.get_port(), 443);
}

#[test]
pub fn too_few_fields_reject_entry() {
    assert!(Proxy::from_str("no separator at all").is_none());
    assert!(Proxy::from_str("a = https,h").is_none());
}

#[test]
pub fn username_without_password_rejects_entry() {
    assert!(Proxy::from_str("a = https,h,443,lonelyuser").is_none());
}

#[test]
pub fn unknown_group_kind_rejected() {
    assert!(ProxyGroup::from_str("g = fallback,a,b").is_none());
    assert!(ProxyGroup::from_str("no separator").is_none());
}

#[test]
pub fn url_test_defaults_apply_per_field() {
    let group = ProxyGroup::from_str("g = url-test,a,b,interval=oops,timeout=9")
        .expect("Parsing should work");
    assert_eq!(
        *group.get_group_type(),
        ProxyGroupType::UrlTest {
            url: String::from("www.google.com"),
            interval: 600,
            tolerance: 100,
            timeout: 9,
        }
    );
    assert_eq!(
        group.get_proxies(),
        &vec![String::from("a"), String::from("b")]
    );
}

#[test]
pub fn token_utilities_split_params() {
    let entries = vec![
        String::from(" a = 1 "),
        String::from("bare"),
        String::from("b=2"),
        String::from("a=3"),
        String::from("x=y=z"),
        String::from(" other "),
    ];
    let params = params_map_from_strs(&entries);
    assert_eq!(
        params,
        vec![
            (String::from("a"), String::from("3")),
            (String::from("b"), String::from("2")),
        ]
    );
    let bare = string_vec_from_strs(&entries);
    assert_eq!(bare, vec![String::from("bare"), String::from("other")]);
}
