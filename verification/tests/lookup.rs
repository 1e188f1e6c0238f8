use expert_spoon::paths::{candidate_paths, default_path, default_path_of, find_config, select_path};

#[test]
fn env_path_comes_first_in_lookup_order() {
    let r = candidate_paths(Some("/env/cfg.yaml".to_string()), Some("/home/u/.expert-spoon.yaml".to_string()));
    assert_eq!(r, vec!["/env/cfg.yaml".to_string(), "/home/u/.expert-spoon.yaml".to_string()]);
}

#[test]
fn missing_candidates_shorten_the_list() {
    assert_eq!(candidate_paths(None, Some("/d".to_string())), vec!["/d".to_string()]);
    assert_eq!(candidate_paths(Some("/e".to_string()), None), vec!["/e".to_string()]);
    assert_eq!(candidate_paths(None, None), Vec::<String>::new());
}

#[test]
fn present_env_path_is_chosen_over_present_default() {
    let paths = vec!["/env/cfg.yaml".to_string(), "/home/u/.expert-spoon.yaml".to_string()];
    let present = vec![true, true];
    assert_eq!(select_path(&paths, &present), Some("/env/cfg.yaml".to_string()));
}

#[test]
fn absent_env_path_falls_back_to_default() {
    let paths = vec!["/env/cfg.yaml".to_string(), "/home/u/.expert-spoon.yaml".to_string()];
    let present = vec![false, true];
    assert_eq!(select_path(&paths, &present), Some("/home/u/.expert-spoon.yaml".to_string()));
}

#[test]
fn no_present_candidate_means_no_path() {
    let paths = vec!["/a".to_string(), "/b".to_string()];
    assert_eq!(select_path(&paths, &vec![false, false]), None);
}

#[test]
fn find_config_skips_missing_paths() {
    let paths = vec!["/definitely/not/there-expert-spoon".to_string(), "/".to_string()];
    assert_eq!(find_config(&paths), Some("/".to_string()));
}

#[test]
fn find_config_fails_when_nothing_exists() {
    let paths = vec![
        "/definitely/not/there-expert-spoon".to_string(),
        "/also/not/there-expert-spoon".to_string(),
    ];
    assert_eq!(find_config(&paths), None);
}

#[test]
fn default_path_of_joins_home_and_dotfile() {
    assert_eq!(
        default_path_of(Some("/home/u".to_string())),
        Some("/home/u/.expert-spoon.yaml".to_string())
    );
    assert_eq!(default_path_of(None), None);
}

#[test]
fn default_path_names_the_dotfile() {
    if let Some(p) = default_path() {
        assert!(p.ends_with("/.expert-spoon.yaml"));
    }
}
