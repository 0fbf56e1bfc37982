use lang_peers::collect::{
    collect_values_per_language, collect_values_per_param, get_my_languages, total_observations,
    MyLanguage, SameValue,
};
use lang_peers::csvs::{Chapter, Parameter, Value};
use lang_peers::dict::Dict;
use lang_peers::graph::{AnotherGraphSource, GraphLine, GraphSource};
use lang_peers::strings::{join_with, parse_usize, sanitize, sort_strings, usize_to_string};
use lang_peers::util::{
    all_ok, flatten, map_keys_dict, map_map_dict, rev_dict, transform_ddict, unzip_dict,
};

fn record(lang: &str, param: &str, value: usize) -> Value {
    Value {
        id: String::new(),
        language_id: lang.to_string(),
        parameter_id: param.to_string(),
        value,
        code_id: String::new(),
        comment: String::new(),
        source: String::new(),
        example_id: String::new(),
    }
}

fn strings(items: &[&str]) -> Vec<String> {
    items.iter().map(|s| s.to_string()).collect()
}

#[test]
fn read() {
    // chapters.csv-shaped data: a header row, then chapter rows
    let data = b"id,name,description,contributor,citation,wp_slug,number,area_id,source,contributor_id,with_contributor_id\n\
9,Numbers,About numbers,Someone,Someone 2005,numbers,9,3,src,c1,\n"
        .to_vec();
    let rs = lang_peers::csvs::read_chapters(&data);
    println!("{:#?}", rs);
    assert_eq!(rs.len(), 1);
    assert_eq!(rs[0].name, "Numbers");
    assert_eq!(rs[0].number, 9);
    assert_eq!(rs[0].area_id, Some(3));
}

#[test]
fn transform() {
    let mut h: Dict<String, Dict<String, usize>> = Dict::new();
    let mut apple: Dict<String, usize> = Dict::new();
    apple.insert("color".to_string(), 1);
    apple.insert("like".to_string(), 5);
    h.insert("apple".to_string(), apple);
    let mut banana: Dict<String, usize> = Dict::new();
    banana.insert("color".to_string(), 3);
    banana.insert("like".to_string(), 3);
    h.insert("banana".to_string(), banana);
    let mut orange: Dict<String, usize> = Dict::new();
    orange.insert("color".to_string(), 2);
    orange.insert("like".to_string(), 3);
    h.insert("orange".to_string(), orange);

    let g = transform_ddict(&h);
    let color = g.get(&"color".to_string()).expect("color group");
    assert_eq!(color.get(&1).expect("color 1"), &strings(&["apple"]));
    assert_eq!(color.get(&3).expect("color 3"), &strings(&["banana"]));
    assert_eq!(color.get(&2).expect("color 2"), &strings(&["orange"]));
    let like = g.get(&"like".to_string()).expect("like group");
    assert_eq!(like.get(&5).expect("like 5"), &strings(&["apple"]));
    assert_eq!(like.get(&3).expect("like 3"), &strings(&["banana", "orange"]));
}

#[test]
fn mapping() {
    let mut h: Dict<usize, usize> = Dict::new();
    h.insert(1, 2);
    h.insert(2, 3);
    h.insert(3, 4);
    let mut g: Dict<usize, usize> = Dict::new();
    g.insert(1, 0);
    g.insert(2, 1);
    g.insert(3, 2);

    let hg = map_keys_dict(h.clone(), &g);
    assert_eq!(hg.get(&0), Some(&2));
    assert_eq!(hg.get(&1), Some(&3));
    assert_eq!(hg.get(&2), Some(&4));

    let mm = map_map_dict(h, &g);
    assert_eq!(mm.get(&1), Some(&1));
    assert_eq!(mm.get(&2), Some(&2));
    assert_eq!(mm.get(&3), None);
}

#[test]
fn duplicate_record_overwrites() {
    let values = vec![record("l1", "alpha", 3), record("l1", "alpha", 7)];
    let profiles = collect_values_per_language(&values);
    let l1 = profiles.get(&"l1".to_string()).expect("l1 profile");
    assert_eq!(l1.get(&"alpha".to_string()), Some(&7));
    assert_eq!(l1.len(), 1);
}

fn small_dataset() -> Vec<Value> {
    vec![
        record("l1", "alpha", 1),
        record("l2", "alpha", 1),
        record("l3", "alpha", 2),
        record("l1", "beta", 7),
        record("l2", "beta", 8),
    ]
}

#[test]
fn peer_groups_small_dataset() {
    let values = small_dataset();
    let cvp = collect_values_per_param(&values);
    let cvl = collect_values_per_language(&values);
    assert_eq!(total_observations(&cvp), 5);
    let langs = strings(&["l1", "l2", "l3"]);
    let reports = get_my_languages(&cvp, &cvl, &langs);
    assert_eq!(reports.len(), 3);

    let l1 = reports.get(&"l1".to_string()).expect("l1 report");
    let l1_alpha = l1.param_values.get(&"alpha".to_string()).expect("l1 alpha");
    assert_eq!(l1_alpha.value, 1);
    assert_eq!(l1_alpha.same_value_language_ids, strings(&["l2"]));
    assert_eq!(l1_alpha.value_language_count, 1);
    assert_eq!(l1_alpha.language_count_total, 5);

    let l3 = reports.get(&"l3".to_string()).expect("l3 report");
    let l3_alpha = l3.param_values.get(&"alpha".to_string()).expect("l3 alpha");
    assert_eq!(l3_alpha.same_value_language_ids, Vec::<String>::new());
    assert_eq!(l3_alpha.value_language_count, 0);
    assert_eq!(l3_alpha.language_count_total, 5);

    // the denominator is the dataset-wide total on every statistic
    let l2 = reports.get(&"l2".to_string()).expect("l2 report");
    let l2_beta = l2.param_values.get(&"beta".to_string()).expect("l2 beta");
    assert_eq!(l2_beta.language_count_total, 5);
    assert_eq!(l2_beta.value_language_count, 0);

    // no peer list contains its subject
    for lang in ["l1", "l2", "l3"] {
        let rep = reports.get(&lang.to_string()).expect("report");
        let mut i = 0;
        while i < rep.param_values.len() {
            let sv = rep.param_values.value_at(i);
            assert!(!sv.same_value_language_ids.contains(&lang.to_string()));
            assert!(sv.value_language_count <= sv.language_count_total);
            i += 1;
        }
    }
}

#[test]
fn language_without_profile_gets_no_report() {
    let values = small_dataset();
    let cvp = collect_values_per_param(&values);
    let cvl = collect_values_per_language(&values);
    let reports = get_my_languages(&cvp, &cvl, &strings(&["l1", "l9"]));
    assert_eq!(reports.len(), 1);
    assert!(reports.get(&"l1".to_string()).is_some());
    assert!(reports.get(&"l9".to_string()).is_none());
}

#[test]
fn repeated_language_listed_once() {
    let values = small_dataset();
    let cvp = collect_values_per_param(&values);
    let cvl = collect_values_per_language(&values);
    let reports = get_my_languages(&cvp, &cvl, &strings(&["l1", "l1"]));
    assert_eq!(reports.len(), 1);
}

#[test]
fn empty_input_empty_reports() {
    let values: Vec<Value> = Vec::new();
    let cvp = collect_values_per_param(&values);
    let cvl = collect_values_per_language(&values);
    assert_eq!(total_observations(&cvp), 0);
    let langs = strings(&["l1", "l2"]);
    let reports = get_my_languages(&cvp, &cvl, &langs);
    assert_eq!(reports.len(), 0);
}

fn report_lines(values: &[Value], langs: &[&str]) -> Vec<String> {
    let values = values.to_vec();
    let cvp = collect_values_per_param(&values);
    let cvl = collect_values_per_language(&values);
    let reports = get_my_languages(&cvp, &cvl, &strings(langs));
    let mut parameters: Dict<String, Parameter> = Dict::new();
    parameters.insert(
        "alpha".to_string(),
        Parameter {
            id: "alpha".to_string(),
            name: "first, one".to_string(),
            description: "d1".to_string(),
            column_spec: String::new(),
            chapter_id: 9,
        },
    );
    parameters.insert(
        "beta".to_string(),
        Parameter {
            id: "beta".to_string(),
            name: "second".to_string(),
            description: "d2".to_string(),
            column_spec: String::new(),
            chapter_id: 9,
        },
    );
    let mut chapters: Dict<usize, Chapter> = Dict::new();
    chapters.insert(
        9,
        Chapter {
            id: "9".to_string(),
            name: "ch".to_string(),
            description: String::new(),
            contributor: String::new(),
            citation: "cite, me".to_string(),
            wp_slug: String::new(),
            number: 9,
            area_id: None,
            source: String::new(),
            contributor_id: String::new(),
            with_contributor_id: String::new(),
        },
    );
    let mut lines: Vec<String> = Vec::new();
    let mut i = 0;
    while i < reports.len() {
        let ml = reports.value_at(i);
        for row in ml.rows(&parameters, &chapters) {
            lines.push(row.to_line());
        }
        i += 1;
    }
    lines
}

#[test]
fn aggregation_idempotent() {
    let values = small_dataset();
    let first = report_lines(&values, &["l1", "l2", "l3"]);
    let second = report_lines(&values, &["l1", "l2", "l3"]);
    assert_eq!(first, second);
    assert!(!first.is_empty());
}

#[test]
fn row_line_exact() {
    let values = small_dataset();
    let lines = report_lines(&values, &["l1"]);
    // sanitized commas, sorted space-joined peers, exact counts
    assert_eq!(lines[0], "alpha,first; one,d1,9,cite; me,1,l2,1,5");
    assert_eq!(lines[1], "beta,second,d2,9,cite; me,7,,0,5");
}

#[test]
fn missing_metadata_drops_row_only() {
    let values = vec![record("l1", "alpha", 1), record("l1", "gamma", 2)];
    let lines = report_lines(&values, &["l1"]);
    // gamma has no metadata row, so only alpha's row is written
    assert_eq!(lines.len(), 1);
    assert!(lines[0].starts_with("alpha,"));
}

#[test]
fn columns_header() {
    let cols = MyLanguage::columns();
    assert_eq!(cols.len(), 10);
    assert_eq!(cols[0], "parameter_id");
    assert_eq!(cols[9], "count_ratio");
    let sv_cols = SameValue::columns();
    assert_eq!(sv_cols, vec![
        "value",
        "same_value_language_ids",
        "value_language_count",
        "language_count_total",
    ]);
}

#[test]
fn util_flatten_and_all_ok() {
    let nested: Result<Result<usize, String>, String> = Ok(Ok(4));
    assert_eq!(flatten(nested), Ok(4));
    let nested_err: Result<Result<usize, String>, String> = Err("e".to_string());
    assert_eq!(flatten(nested_err), Err("e".to_string()));

    let all: Vec<Result<usize, String>> = vec![Ok(1), Ok(2), Ok(3)];
    assert_eq!(all_ok(all), Ok(vec![1, 2, 3]));
    let some: Vec<Result<usize, String>> = vec![Ok(1), Err("a".to_string()), Err("b".to_string())];
    assert_eq!(all_ok(some), Err("a".to_string()));
}

#[test]
fn util_unzip_and_rev() {
    let pairs = vec![(1usize, "a".to_string()), (2, "b".to_string())];
    let (ks, vs) = unzip_dict(pairs);
    assert_eq!(ks, vec![1, 2]);
    assert_eq!(vs, strings(&["a", "b"]));

    let mut h: Dict<String, usize> = Dict::new();
    h.insert("x".to_string(), 10);
    h.insert("y".to_string(), 20);
    let r = rev_dict(h);
    assert_eq!(r.get(&10), Some(&"x".to_string()));
    assert_eq!(r.get(&20), Some(&"y".to_string()));
}

#[test]
fn numerals_and_sanitizing() {
    assert_eq!(usize_to_string(0), "0");
    assert_eq!(usize_to_string(7), "7");
    assert_eq!(usize_to_string(12345), "12345");

    assert_eq!(parse_usize("42"), Some(42));
    assert_eq!(parse_usize("+7"), Some(7));
    assert_eq!(parse_usize("0"), Some(0));
    assert_eq!(parse_usize(""), None);
    assert_eq!(parse_usize("+"), None);
    assert_eq!(parse_usize("4x2"), None);
    assert_eq!(parse_usize("99999999999999999999999999999999"), None);

    assert_eq!(sanitize("a,b,c"), "a;b;c");
    assert_eq!(sanitize("plain"), "plain");

    let sorted = sort_strings(strings(&["bb", "a", "ab", "a"]));
    assert_eq!(sorted, strings(&["a", "a", "ab", "bb"]));
    assert_eq!(join_with(&strings(&["x", "y", "z"]), " "), "x y z");
    assert_eq!(join_with(&Vec::new(), " "), "");
}

#[test]
fn parse_value_rows() {
    let ok = Value::from_fields(&strings(&["i", "l1", "p1", "3", "c", "", "", ""])).unwrap();
    assert_eq!(ok.language_id, "l1");
    assert_eq!(ok.parameter_id, "p1");
    assert_eq!(ok.value, 3);
    assert!(Value::from_fields(&strings(&["too", "short"])).is_err());
    assert!(Value::from_fields(&strings(&["i", "l1", "p1", "x", "c", "", "", ""])).is_err());

    let p = Parameter::from_fields(&strings(&["p1", "name", "desc", "col", "4"])).unwrap();
    assert_eq!(p.chapter_id, 4);
    assert!(Parameter::from_fields(&strings(&["p1", "name", "desc", "col", "no"])).is_err());

    let ch = Chapter::from_fields(&strings(&[
        "9", "n", "d", "c", "cit", "slug", "12", "3", "s", "ci", "wci",
    ]))
    .unwrap();
    assert_eq!(ch.number, 12);
    assert_eq!(ch.area_id, Some(3));
    let ch2 = Chapter::from_fields(&strings(&[
        "9", "n", "d", "c", "cit", "slug", "12", "", "s", "ci", "wci",
    ]))
    .unwrap();
    assert_eq!(ch2.area_id, None);
    assert!(Chapter::from_fields(&strings(&[
        "9", "n", "d", "c", "cit", "slug", "x", "3", "s", "ci", "wci",
    ]))
    .is_err());
}

#[test]
fn read_values_from_bytes() {
    let data = b"id,language_id,parameter_id,value,code_id,comment,source,example_id\n\
v1,l1,p1,3,c,,,\n\
v2,l2,p1,4,c,,,\n"
        .to_vec();
    let values = lang_peers::csvs::read_values(&data);
    assert_eq!(values.len(), 2);
    assert_eq!(values[0].language_id, "l1");
    assert_eq!(values[0].value, 3);
    assert_eq!(values[1].language_id, "l2");
    assert_eq!(values[1].value, 4);
}

#[test]
fn read_values_stops_at_first_malformed() {
    let data = b"id,language_id,parameter_id,value,code_id,comment,source,example_id\n\
v1,l1,p1,3,c,,,\n\
v2,l2,p1,notanumber,c,,,\n\
v3,l3,p1,5,c,,,\n"
        .to_vec();
    let values = lang_peers::csvs::read_values(&data);
    assert_eq!(values.len(), 1);
    assert_eq!(values[0].language_id, "l1");
}

#[test]
fn read_parameters_and_chapters_from_bytes() {
    let pdata = b"id,name,description,column_spec,chapter_id\np1,Name,Desc,,4\n".to_vec();
    let params = lang_peers::csvs::read_parameters(&pdata);
    assert_eq!(params.len(), 1);
    assert_eq!(params[0].chapter_id, 4);

    let cdata =
        b"id,name,description,contributor,citation,wp_slug,number,area_id,source,contributor_id,with_contributor_id\n\
9,N,D,C,Cit,slug,12,,S,CI,WCI\n"
            .to_vec();
    let chapters = lang_peers::csvs::read_chapters(&cdata);
    assert_eq!(chapters.len(), 1);
    assert_eq!(chapters[0].number, 12);
    assert_eq!(chapters[0].area_id, None);
}

#[test]
fn graph_line_sorting() {
    let mut gl = GraphLine::new(strings(&["zz", "aa", "mm"]));
    gl.sort_lang_ids();
    assert_eq!(gl.lang_ids, strings(&["aa", "mm", "zz"]));
    assert_eq!(gl.filename_by_ids(), "aa_mm_zz");
}

fn my_languages_fixture() -> Vec<MyLanguage> {
    let values = small_dataset();
    let cvp = collect_values_per_param(&values);
    let cvl = collect_values_per_language(&values);
    let reports = get_my_languages(&cvp, &cvl, &strings(&["l1", "l2", "l3"]));
    let mut out: Vec<MyLanguage> = Vec::new();
    let entries = reports.into_vec();
    for (_, ml) in entries {
        out.push(ml);
    }
    out
}

#[test]
fn graph_sources_number_parameters() {
    let mls = my_languages_fixture();
    let refs: Vec<&MyLanguage> = mls.iter().collect();
    let gs = GraphSource::from_my_languages(refs);
    // parameters numbered in order of first appearance: alpha then beta
    assert_eq!(gs.param_number_id_map.get(&0), Some(&"alpha".to_string()));
    assert_eq!(gs.param_number_id_map.get(&1), Some(&"beta".to_string()));
    let l1 = gs.lang_params_map.get(&"l1".to_string()).expect("l1 line");
    assert_eq!(l1.get(&0), Some(&1));
    assert_eq!(l1.get(&1), Some(&7));

    let refs2: Vec<&MyLanguage> = mls.iter().collect();
    let ags = AnotherGraphSource::from_my_languages(refs2);
    assert_eq!(ags.param_id_number_map.get(&"alpha".to_string()), Some(&0));
    assert_eq!(ags.param_id_number_map.get(&"beta".to_string()), Some(&1));
    let l2 = ags.lang_params_map.get(&"l2".to_string()).expect("l2 line");
    assert_eq!(l2.get(&"beta".to_string()), Some(&8));
}

#[test]
fn graph_reorder_and_series() {
    let mls = my_languages_fixture();
    let refs: Vec<&MyLanguage> = mls.iter().collect();
    let ags = AnotherGraphSource::from_my_languages(refs);
    let ags = ags.sort_by_distinct_count_max_asc();
    // alpha shows two distinct values with largest code 2 (key 202); beta
    // shows two with largest code 8 (key 208): alpha keeps the lower number
    assert_eq!(ags.param_id_number_map.get(&"alpha".to_string()), Some(&0));
    assert_eq!(ags.param_id_number_map.get(&"beta".to_string()), Some(&1));

    let series = ags.plot_series();
    assert_eq!(series.len(), 3);
    // captions come in lexicographic order, symbols cycle "+xtosdr"
    assert_eq!(series[0].0, "l1");
    assert_eq!(series[0].3, '+');
    assert_eq!(series[1].0, "l2");
    assert_eq!(series[1].3, 'x');
    assert_eq!(series[2].0, "l3");
    assert_eq!(series[2].3, 't');
    // l1 recorded alpha=1 (number 0) and beta=7 (number 1), sorted by number
    assert_eq!(series[0].1, vec![0, 1]);
    assert_eq!(series[0].2, vec![1, 7]);
    // l3 recorded only alpha=2
    assert_eq!(series[2].1, vec![0]);
    assert_eq!(series[2].2, vec![2]);
}

#[test]
fn graph_labels_and_lines() {
    let mls = my_languages_fixture();
    let refs: Vec<&MyLanguage> = mls.iter().collect();
    let ags = AnotherGraphSource::from_my_languages(refs);
    let mut params: Dict<String, Parameter> = Dict::new();
    params.insert(
        "alpha".to_string(),
        Parameter {
            id: "alpha".to_string(),
            name: "First".to_string(),
            description: String::new(),
            column_spec: String::new(),
            chapter_id: 1,
        },
    );
    let labels = ags.axis_labels(&params);
    assert_eq!(labels.len(), 2);
    assert_eq!(labels[0], (0, "0. alpha First".to_string()));
    assert_eq!(labels[1], (1, "1. beta".to_string()));

    let lines = ags.param_label_lines(&params);
    assert_eq!(lines, strings(&["0. First", "1. "]));
}
