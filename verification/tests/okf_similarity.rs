use daw::okf::similarity::{
    features, find_similar_in, neutralize_descriptions, similarity_score, Score,
};

fn value(s: Score) -> f64 {
    s.num as f64 / s.den as f64
}

#[test]
fn features_latin_words() {
    let f = features("consult_center_org");
    assert!(f.contains("consult"));
    assert!(f.contains("center"));
    assert!(f.contains("org"));
}

#[test]
fn features_cjk_bigrams() {
    let f = features("咨询中心组织架构");
    assert!(f.contains("咨询"));
    assert!(f.contains("组织"));
    assert!(f.contains("架构"));
    assert!(features("表").is_empty());
}

#[test]
fn reordered_tokens_are_similar() {
    let s = similarity_score("consult_center_org", "", "org_consult_center", "");
    assert!(value(s) >= 0.9, "score={}", value(s));
}

#[test]
fn near_identical_names_are_similar() {
    let s = similarity_score("consult_center_org", "", "consult_center_organ", "");
    assert!(value(s) >= 0.5, "score={}", value(s));
}

#[test]
fn shared_prefix_names_are_similar() {
    let s = similarity_score("lead_new_old_classification", "", "lead_new_old_definition", "");
    assert!(value(s) >= 0.5, "score={}", value(s));
}

#[test]
fn unrelated_names_are_not_similar() {
    let s = similarity_score("company_profile", "", "consult_center_org", "");
    assert!(value(s) < 0.3, "score={}", value(s));
}

#[test]
fn descriptions_bridge_naming_gap() {
    let a = ("new_org_doc", "咨询中心组织架构权威版本，含管辖线与负责人口径");
    let b = ("another_file", "咨询中心组织架构 SCRM 主数据与供给表口径，含命名映射");
    let s = similarity_score(a.0, a.1, b.0, b.1);
    assert!(value(s) >= 0.4, "score={}", value(s));
}

#[test]
fn unrelated_descriptions_are_not_similar() {
    let s = similarity_score(
        "a", "公司背景介绍，主营留学咨询业务",
        "b", "日期解析失败的排障配方，用 to_date 处理",
    );
    assert!(value(s) < 0.4, "score={}", value(s));
}

#[test]
fn feature_set_exact_members() {
    let f = features("Ab_c 数据表x");
    assert_eq!(f.len(), 3);
    assert!(f.contains("ab"));
    assert!(f.contains("数据"));
    assert!(f.contains("据表"));
    assert!(!f.contains("c"));
}

#[test]
fn dice_exact_fraction() {
    let s = similarity_score("alpha_beta", "", "alpha_gamma", "");
    assert_eq!((s.num, s.den), (2, 4));
}

fn entries(v: &[(&str, &str)]) -> Vec<(String, String)> {
    v.iter().map(|(a, b)| (a.to_string(), b.to_string())).collect()
}

#[test]
fn find_similar_returns_sorted_candidates() {
    let items = neutralize_descriptions(&entries(&[
        ("company_profile", "公司背景"),
        ("org_consult_center", "咨询中心组织架构权威版本"),
    ]));
    let hits = find_similar_in(&items, "consult_center_org", Some("咨询中心组织架构"));
    assert_eq!(hits.len(), 1);
    assert_eq!(hits[0].name, "org_consult_center");
    assert!(find_similar_in(&items, "ORG_CONSULT_CENTER", None).is_empty());
    assert!(find_similar_in(&items, "date_parse_recipe", None).is_empty());
}

#[test]
fn candidates_ordered_by_score() {
    let items = entries(&[("ab_cd", ""), ("ab_cd_ef", ""), ("ab_xy", "")]);
    let hits = find_similar_in(&items, "ab_cd_ef_gh", None);
    let names: Vec<&str> = hits.iter().map(|h| h.name.as_str()).collect();
    assert_eq!(names, vec!["ab_cd_ef", "ab_cd"]);
}

#[test]
fn boilerplate_descriptions_are_neutralized() {
    let items = neutralize_descriptions(&entries(&[
        ("a", "自动初始化的 OKF 文档"),
        ("b", "same"),
        ("c", "same"),
        ("d", "same"),
        ("e", "unique"),
    ]));
    let descs: Vec<&str> = items.iter().map(|e| e.1.as_str()).collect();
    assert_eq!(descs, vec!["", "", "", "", "unique"]);
    let items2 = neutralize_descriptions(&entries(&[("x", "同一"), ("y", "同一")]));
    assert_eq!(items2[0].1, "同一");
}

#[test]
fn duplicate_groups_transitive_closure() {
    let raw = entries(&[
        ("c", "咨询中心组织架构 gamma"),
        ("a", "咨询中心组织架构 alpha"),
        ("z", "完全无关的日期解析排障"),
        ("b", "咨询中心组织架构 beta"),
    ]);
    let groups = daw::okf::similarity::duplicate_groups(&raw);
    assert_eq!(groups.len(), 1);
    assert_eq!(groups[0], vec!["a", "b", "c"]);
}

#[test]
fn duplicate_groups_empty_dir() {
    assert!(daw::okf::similarity::duplicate_groups(&[]).is_empty());
}

#[test]
fn boilerplate_descriptions_do_not_group() {
    let raw = entries(&[
        ("a", "自动初始化的 OKF 文档"),
        ("b", "自动初始化的 OKF 文档"),
        ("c", "自动初始化的 OKF 文档"),
    ]);
    assert!(daw::okf::similarity::duplicate_groups(&raw).is_empty());
    let raw2 = entries(&[
        ("x", "咨询中心组织架构口径说明"),
        ("y", "咨询中心组织架构口径说明"),
        ("z", "完全无关的描述"),
    ]);
    let groups = daw::okf::similarity::duplicate_groups(&raw2);
    assert_eq!(groups.len(), 1);
    assert_eq!(groups[0], vec!["x", "y"]);
}

#[test]
fn chained_similarity_joins_groups() {
    let raw = entries(&[
        ("aa_bb", ""),
        ("bb_cc", ""),
        ("cc_dd", ""),
        ("xx_yy", ""),
        ("xx_yy_zz", ""),
    ]);
    let groups = daw::okf::similarity::duplicate_groups(&raw);
    assert_eq!(groups, vec![vec!["aa_bb", "bb_cc", "cc_dd"], vec!["xx_yy", "xx_yy_zz"]]);
}

#[test]
fn entries_sorted_by_name() {
    let items = daw::okf::similarity::entries_with_desc(&entries(&[("b", "1"), ("a", "2"), ("B", "3")]));
    let names: Vec<&str> = items.iter().map(|e| e.0.as_str()).collect();
    assert_eq!(names, vec!["B", "a", "b"]);
}
